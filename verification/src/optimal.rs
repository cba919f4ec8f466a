//! Why no tree is cheaper than the one that construction makes: the shapes
//! of trees over given weights, what they cost, and the exchange that brings
//! the two lightest leaves together at the bottom.

use vstd::prelude::*;
use vstd::multiset::Multiset;
use vstd::seq_lib::group_to_multiset_ensures;
use crate::heap::{
    all_well_formed, build_heap, is_min_heap, joined, leaf_nodes, lemma_build_heap_is_min_heap,
    lemma_forest_permutation, lemma_leaf_nodes, lemma_merge_joins_lightest, lemma_merge_step,
    lemma_merge_step_len, lemma_with_node, lemma_without_min, merge_all, merge_step, total_freq,
    tree_of, with_node, without_min,
};
use crate::codes::{counts_text, distinct_symbols, encoded_bits, has_symbol, is_prefix};
use crate::leaves::{leaf_sum, occurrences};
use crate::node::{Leaf, Node};

verus! {

broadcast use vstd::multiset::group_multiset_axioms;

/// The shape of a tree over weights: a leaf with its weight, or two shapes
/// side by side under a common parent.
pub enum Shape {
    Leaf(nat),
    Fork(Box<Shape>, Box<Shape>),
}

impl Shape {
    /// The weights of the leaves.
    pub open spec fn weights(self) -> Multiset<nat>
        decreases self,
    {
        match self {
            Shape::Leaf(w) => Multiset::singleton(w),
            Shape::Fork(l, r) => l.weights().add(r.weights()),
        }
    }

    /// The sum of the weights of the leaves.
    pub open spec fn weight(self) -> nat
        decreases self,
    {
        match self {
            Shape::Leaf(w) => w,
            Shape::Fork(l, r) => l.weight() + r.weight(),
        }
    }

    /// The number of steps from the top to the deepest leaf.
    pub open spec fn height(self) -> nat
        decreases self,
    {
        match self {
            Shape::Leaf(w) => 0,
            Shape::Fork(l, r) => 1 + if l.height() >= r.height() { l.height() } else { r.height() },
        }
    }

    /// The weighted path length: each leaf pays its weight once for every
    /// step that it stands below the top.
    pub open spec fn cost(self) -> nat
        decreases self,
    {
        match self {
            Shape::Leaf(w) => 0,
            Shape::Fork(l, r) => l.cost() + r.cost() + l.weight() + r.weight(),
        }
    }

    /// Whether the search for a deepest pair of leaves goes on to the left.
    pub open spec fn deepest_left(self) -> bool {
        match self {
            Shape::Leaf(w) => false,
            Shape::Fork(l, r) => (*l) is Fork && ((*r) is Leaf || l.height() >= r.height()),
        }
    }

    /// The weights of two leaves that stand side by side at the deepest
    /// level.
    pub open spec fn deepest_pair(self) -> (nat, nat)
        decreases self,
    {
        match self {
            Shape::Leaf(w) => (w, w),
            Shape::Fork(l, r) => if (*l) is Leaf && (*r) is Leaf {
                ((*l)->Leaf_0, (*r)->Leaf_0)
            } else if self.deepest_left() {
                l.deepest_pair()
            } else {
                r.deepest_pair()
            },
        }
    }

    /// The shape with that deepest pair and its parent replaced by one leaf
    /// of weight `z`.
    pub open spec fn contracted(self, z: nat) -> Shape
        decreases self,
    {
        match self {
            Shape::Leaf(w) => Shape::Leaf(z),
            Shape::Fork(l, r) => if (*l) is Leaf && (*r) is Leaf {
                Shape::Leaf(z)
            } else if self.deepest_left() {
                Shape::Fork(Box::new(l.contracted(z)), r)
            } else {
                Shape::Fork(l, Box::new(r.contracted(z)))
            },
        }
    }

    /// The shape with one leaf of weight `u` given the weight `v`.
    pub open spec fn reweighted(self, u: nat, v: nat) -> Shape
        decreases self,
    {
        match self {
            Shape::Leaf(w) => if w == u { Shape::Leaf(v) } else { self },
            Shape::Fork(l, r) => if l.weights().contains(u) {
                Shape::Fork(Box::new(l.reweighted(u, v)), r)
            } else {
                Shape::Fork(l, Box::new(r.reweighted(u, v)))
            },
        }
    }
}

/// A shape has at least one leaf, and two or more if it forks.
pub proof fn lemma_weights_len(s: Shape)
    ensures
        s.weights().len() >= 1,
        s is Fork ==> s.weights().len() >= 2,
        s is Leaf ==> s.weights().len() == 1,
    decreases s,
{
    match s {
        Shape::Leaf(w) => {},
        Shape::Fork(l, r) => {
            lemma_weights_len(*l);
            lemma_weights_len(*r);
        },
    }
}

/// A leaf has height 0 and costs nothing, and a shape that forks has at
/// least height 1.
pub proof fn lemma_height_kind(s: Shape)
    ensures
        s is Leaf ==> s.height() == 0 && s.cost() == 0 && s.weight() == s->Leaf_0 && s.weights()
            == Multiset::singleton(s->Leaf_0),
        s is Fork ==> s.height() >= 1,
{
}

/// How often a value occurs after one instance of a value is taken out.
pub proof fn lemma_remove_count(m: Multiset<nat>, v: nat, k: nat)
    ensures
        m.remove(v).count(k) == if k == v && m.count(k) > 0 {
            (m.count(k) - 1) as nat
        } else {
            m.count(k)
        },
{
}

/// How often a value occurs after one instance of a value is put in.
pub proof fn lemma_insert_count(m: Multiset<nat>, v: nat, k: nat)
    ensures
        m.insert(v).count(k) == m.count(k) + if k == v { 1nat } else { 0nat },
{
}

/// Taking two values out of one part and putting one in is the same on
/// the whole as on the part.
pub proof fn lemma_part_exchange(part: Multiset<nat>, rest: Multiset<nat>, x: nat, y: nat, z: nat)
    requires
        part.contains(x),
        part.remove(x).contains(y),
    ensures
        part.add(rest).contains(x),
        part.add(rest).remove(x).contains(y),
        part.remove(x).remove(y).insert(z).add(rest) == part.add(rest).remove(x).remove(y).insert(z),
        rest.add(part).contains(x),
        rest.add(part).remove(x).contains(y),
        rest.add(part.remove(x).remove(y).insert(z)) == rest.add(part).remove(x).remove(y).insert(z),
{
    assert(part.remove(x).remove(y).insert(z).add(rest) =~= part.add(rest).remove(x).remove(
        y,
    ).insert(z));
    assert(rest.add(part.remove(x).remove(y).insert(z)) =~= rest.add(part).remove(x).remove(
        y,
    ).insert(z));
}

/// Two leaves side by side: replacing them by one leaf.
pub proof fn lemma_contracted_pair(s: Shape, z: nat)
    requires
        s is Fork,
        (*s->Fork_0) is Leaf,
        (*s->Fork_1) is Leaf,
    ensures
        s.height() == 1,
        s.deepest_pair() == ((*s->Fork_0)->Leaf_0, (*s->Fork_1)->Leaf_0),
        s.contracted(z) == Shape::Leaf(z),
        s.weights() == Multiset::singleton(s.deepest_pair().0).add(
            Multiset::singleton(s.deepest_pair().1),
        ),
        s.weight() == s.deepest_pair().0 + s.deepest_pair().1,
        s.cost() == s.deepest_pair().0 + s.deepest_pair().1,
{
    lemma_height_kind(*s->Fork_0);
    lemma_height_kind(*s->Fork_1);
}

/// Replacing a deepest pair by one leaf: the pair is among the leaves; the
/// new shape has the other leaves and the new one, is no higher, and costs
/// what the old one cost, less the pair at the deepest level, plus the new
/// leaf one level higher.
#[verifier::rlimit(50)]
pub proof fn lemma_contracted(s: Shape, z: nat)
    requires
        s is Fork,
    ensures
        s.height() >= 1,
        s.weights().contains(s.deepest_pair().0),
        s.weights().remove(s.deepest_pair().0).contains(s.deepest_pair().1),
        s.contracted(z).weights() == s.weights().remove(s.deepest_pair().0).remove(
            s.deepest_pair().1,
        ).insert(z),
        s.contracted(z).height() <= s.height(),
        s.contracted(z).weight() + s.deepest_pair().0 + s.deepest_pair().1 == s.weight() + z,
        s.contracted(z).cost() + (s.deepest_pair().0 + s.deepest_pair().1) * s.height() == s.cost()
            + z * (s.height() - 1),
    decreases s,
{
    let x = s.deepest_pair().0;
    let y = s.deepest_pair().1;
    let h = s.height() as int;
    let l = *s->Fork_0;
    let r = *s->Fork_1;
    if l is Leaf && r is Leaf {
        lemma_contracted_pair(s, z);
        lemma_height_kind(Shape::Leaf(z));
        assert(s.contracted(z).weights() =~= s.weights().remove(x).remove(y).insert(z));
        assert((x + y) * 1 == x + y) by (nonlinear_arith);
        assert(z * 0 == 0) by (nonlinear_arith);
    } else {
        lemma_height_kind(l);
        lemma_height_kind(r);
        let left = s.deepest_left();
        let t = if left { l } else { r };
        let o = if left { r } else { l };
        assert(t is Fork);
        assert(t.height() == h - 1);
        lemma_contracted(t, z);
        let c = t.contracted(z);
        assert(t.deepest_pair() == (x, y));
        lemma_part_exchange(t.weights(), o.weights(), x, y, z);
        assert(s.contracted(z).cost() == c.cost() + o.cost() + c.weight() + o.weight());
        assert(s.cost() == t.cost() + o.cost() + t.weight() + o.weight());
        assert((x + y) * h == (x + y) * (h - 1) + (x + y)) by (nonlinear_arith);
        assert(z * (h - 1) == z * (h - 2) + z) by (nonlinear_arith);
    }
}

/// Giving a leaf a greater weight: the new shape has the other leaves and
/// the heavier one, is as high as before, and costs at most the difference
/// times the height more.
pub proof fn lemma_reweighted(s: Shape, u: nat, v: nat)
    requires
        s.weights().contains(u),
        u <= v,
    ensures
        s.reweighted(u, v).weights() == s.weights().remove(u).insert(v),
        s.reweighted(u, v).height() == s.height(),
        s.reweighted(u, v).weight() + u == s.weight() + v,
        s.reweighted(u, v).cost() <= s.cost() + (v - u) * s.height(),
    decreases s,
{
    let d = (v - u) as int;
    match s {
        Shape::Leaf(w) => {
            assert(s.reweighted(u, v).weights() =~= s.weights().remove(u).insert(v));
            assert(d * 0 == 0) by (nonlinear_arith);
        },
        Shape::Fork(l, r) => {
            let t = if l.weights().contains(u) { *l } else { *r };
            lemma_reweighted(t, u, v);
            assert(s.reweighted(u, v).weights() =~= s.weights().remove(u).insert(v));
            let ht = t.height() as int;
            let hs = s.height() as int;
            assert(d * ht + d <= d * hs) by (nonlinear_arith)
                requires
                    d >= 0,
                    ht + 1 <= hs,
            ;
        },
    }
}

/// The exchange: in a shape that forks, the two lightest leaves can be
/// brought together. Where `a` is a lightest weight and `b` a lightest of
/// the rest, some shape has one leaf of weight `a + b` in place of the two
/// and costs at least `a + b` less.
pub proof fn lemma_pair_lightest(s: Shape, a: nat, b: nat) -> (t: Shape)
    requires
        s is Fork,
        s.weights().contains(a),
        s.weights().remove(a).contains(b),
        forall|w: nat| s.weights().contains(w) ==> a <= w,
        forall|w: nat| s.weights().remove(a).contains(w) ==> b <= w,
    ensures
        t.weights() == s.weights().remove(a).remove(b).insert(a + b),
        t.cost() + a + b <= s.cost(),
{
    let all = s.weights();
    let x = s.deepest_pair().0;
    let y = s.deepest_pair().1;
    let h = s.height() as int;
    let c = s.contracted(a + b);
    lemma_contracted(s, a + b);
    let goal = all.remove(a).remove(b).insert(a + b);
    lemma_remove_count(all, a, b);
    lemma_remove_count(all, x, y);
    lemma_remove_count(all, a, x);
    lemma_remove_count(all, a, y);
    assert(all.contains(b));
    assert(all.contains(y));
    assert(a <= x);
    assert(a <= y);
    assert(a <= b);
    assert(all.remove(a).contains(y) ==> b <= y);
    assert(all.remove(a).contains(x) ==> b <= x);
    let m1 = all.remove(x);
    let m2 = m1.remove(y);
    let m3 = m2.insert(a + b);
    assert(c.weights() == m3);
    // the first leaf to make heavier, and the second
    let (u1, v1, u2, v2) = if (x == a && y == b) || (x == b && y == a) {
        (a + b, a + b, a + b, a + b)
    } else if x == a {
        (b, y, y, y)
    } else if y == a {
        (b, x, x, x)
    } else if x == b {
        (a, y, y, y)
    } else if y == b {
        (a, x, x, x)
    } else {
        (a, x, b, y)
    };
    lemma_remove_count(all, x, u1);
    lemma_remove_count(m1, y, u1);
    lemma_insert_count(m2, a + b, u1);
    assert(c.weights().count(u1) > 0);
    assert(u1 <= v1);
    let c1 = c.reweighted(u1, v1);
    lemma_reweighted(c, u1, v1);
    let m4 = m3.remove(u1);
    let m5 = m4.insert(v1);
    assert(c1.weights() == m5);
    lemma_remove_count(all, x, u2);
    lemma_remove_count(m1, y, u2);
    lemma_insert_count(m2, a + b, u2);
    lemma_remove_count(m3, u1, u2);
    lemma_insert_count(m4, v1, u2);
    assert(c1.weights().count(u2) > 0);
    assert(u2 <= v2);
    let c2 = c1.reweighted(u2, v2);
    lemma_reweighted(c1, u2, v2);
    assert(c2.weights() =~= goal);
    let e1 = (v1 - u1) as int;
    let e2 = (v2 - u2) as int;
    assert(e1 + e2 == x + y - a - b);
    let h1 = c.height() as int;
    assert(e1 * h1 <= e1 * h && e2 * h1 <= e2 * h) by (nonlinear_arith)
        requires
            e1 >= 0,
            e2 >= 0,
            0 <= h1 <= h,
    ;
    assert((x + y) * h == (a + b) * h + e1 * h + e2 * h) by (nonlinear_arith)
        requires
            e1 + e2 == x + y - a - b,
    ;
    assert((a + b) * (h - 1) == (a + b) * h - (a + b)) by (nonlinear_arith);
    c2
}

/// The shape of a tree: its leaves' frequencies as weights.
pub open spec fn shape_of(node: Node) -> Shape
    decreases node,
{
    if node.left is Some && node.right is Some {
        Shape::Fork(Box::new(shape_of(*node.left->0)), Box::new(shape_of(*node.right->0)))
    } else {
        Shape::Leaf(node.freq as nat)
    }
}

/// The frequencies of a table of leaves.
pub open spec fn leaf_weights(leaves: Seq<Leaf>) -> Multiset<nat>
    decreases leaves.len(),
{
    if leaves.len() == 0 {
        Multiset::empty()
    } else {
        leaf_weights(leaves.drop_last()).insert(leaves.last().1 as nat)
    }
}

/// The frequencies of the nodes of a heap.
pub open spec fn root_weights(s: Seq<Node>) -> Multiset<nat>
    decreases s.len(),
{
    if s.len() == 0 {
        Multiset::empty()
    } else {
        root_weights(s.drop_last()).insert(s.last().freq as nat)
    }
}

/// What the trees of a heap cost together.
pub open spec fn forest_cost(s: Seq<Node>) -> nat
    decreases s.len(),
{
    if s.len() == 0 {
        0
    } else {
        forest_cost(s.drop_last()) + s.last().cost()
    }
}

/// What the rounds of construction add to the cost: each round the
/// frequencies of the two nodes that it joins.
pub open spec fn merge_cost(s: Seq<Node>) -> nat
    decreases s.len(),
{
    if s.len() <= 1 {
        0
    } else {
        proof {
            lemma_merge_step_len(s);
        }
        s[0].freq as nat + without_min(s)[0].freq as nat + merge_cost(merge_step(s))
    }
}

/// One level down, a well-formed tree costs its frequency more.
pub proof fn lemma_weighted_depth(node: Node, depth: nat)
    requires
        node.well_formed(),
    ensures
        node.weighted_depth(depth) == node.cost() + node.freq * depth,
    decreases node,
{
    if node.is_leaf() {
        assert(node.freq as nat * 0 == 0) by (nonlinear_arith);
    } else {
        let l = *node.left->0;
        let r = *node.right->0;
        lemma_weighted_depth(l, depth + 1);
        lemma_weighted_depth(r, depth + 1);
        lemma_weighted_depth(l, 1);
        lemma_weighted_depth(r, 1);
        let a = l.freq as int;
        let b = r.freq as int;
        let d = depth as int;
        assert(a * (d + 1) + b * (d + 1) == a * 1 + b * 1 + (a + b) * d) by (nonlinear_arith);
    }
}

/// The shape of a well-formed tree weighs and costs what the tree does, and
/// its weights are the frequencies of the tree's leaves.
pub proof fn lemma_shape_of(node: Node)
    requires
        node.well_formed(),
    ensures
        shape_of(node).weight() == node.freq,
        shape_of(node).cost() == node.cost(),
        shape_of(node).weights() == leaf_weights(node.leaves()),
    decreases node,
{
    if node.is_leaf() {
        assert(node.freq as nat * 0 == 0) by (nonlinear_arith);
        assert(node.leaves().drop_last() =~= Seq::<Leaf>::empty());
        assert(leaf_weights(node.leaves().drop_last()) =~= Multiset::<nat>::empty());
        assert(shape_of(node).weights() =~= leaf_weights(node.leaves()));
    } else {
        let l = *node.left->0;
        let r = *node.right->0;
        lemma_shape_of(l);
        lemma_shape_of(r);
        lemma_weighted_depth(l, 1);
        lemma_weighted_depth(r, 1);
        assert(l.freq * 1 == l.freq && r.freq * 1 == r.freq) by (nonlinear_arith);
        lemma_leaf_weights_concat(l.leaves(), r.leaves());
    }
}

/// The frequencies of two tables together.
pub proof fn lemma_leaf_weights_concat(a: Seq<Leaf>, b: Seq<Leaf>)
    ensures
        leaf_weights(a + b) == leaf_weights(a).add(leaf_weights(b)),
    decreases b.len(),
{
    if b.len() == 0 {
        assert(a + b =~= a);
        assert(leaf_weights(a + b) =~= leaf_weights(a).add(leaf_weights(b)));
    } else {
        lemma_leaf_weights_concat(a, b.drop_last());
        assert((a + b).drop_last() =~= a + b.drop_last());
        assert((a + b).last() == b.last());
        assert(leaf_weights(a + b) =~= leaf_weights(a).add(leaf_weights(b)));
    }
}

/// Taking a leaf out of a table takes its frequency out.
pub proof fn lemma_leaf_weights_remove(leaves: Seq<Leaf>, i: int)
    requires
        0 <= i < leaves.len(),
    ensures
        leaf_weights(leaves) == leaf_weights(leaves.remove(i)).insert(leaves[i].1 as nat),
    decreases leaves.len(),
{
    if i == leaves.len() - 1 {
        assert(leaves.remove(i) =~= leaves.drop_last());
    } else {
        lemma_leaf_weights_remove(leaves.drop_last(), i);
        assert(leaves.remove(i).drop_last() =~= leaves.drop_last().remove(i));
        assert(leaves.remove(i).last() == leaves.last());
        assert(leaf_weights(leaves) =~= leaf_weights(leaves.remove(i)).insert(
            leaves[i].1 as nat,
        ));
    }
}

/// Two tables of the same leaves have the same frequencies.
pub proof fn lemma_leaf_weights_permutation(a: Seq<Leaf>, b: Seq<Leaf>)
    requires
        a.to_multiset() == b.to_multiset(),
    ensures
        leaf_weights(a) == leaf_weights(b),
    decreases a.len(),
{
    broadcast use group_to_multiset_ensures;

    assert(a.to_multiset().len() == a.len());
    assert(b.to_multiset().len() == b.len());
    if a.len() > 0 {
        let x = a.last();
        assert(a.contains(x));
        assert(b.to_multiset().count(x) > 0);
        let j = choose|j: int| 0 <= j < b.len() && b[j] == x;
        assert(a.drop_last() =~= a.remove(a.len() - 1));
        lemma_leaf_weights_permutation(a.drop_last(), b.remove(j));
        lemma_leaf_weights_remove(b, j);
    }
}

/// Taking a node out of a heap takes its frequency and its cost out.
pub proof fn lemma_roots_remove(s: Seq<Node>, i: int)
    requires
        0 <= i < s.len(),
    ensures
        root_weights(s) == root_weights(s.remove(i)).insert(s[i].freq as nat),
        forest_cost(s) == forest_cost(s.remove(i)) + s[i].cost(),
    decreases s.len(),
{
    if i == s.len() - 1 {
        assert(s.remove(i) =~= s.drop_last());
    } else {
        lemma_roots_remove(s.drop_last(), i);
        assert(s.remove(i).drop_last() =~= s.drop_last().remove(i));
        assert(s.remove(i).last() == s.last());
        assert(root_weights(s) =~= root_weights(s.remove(i)).insert(s[i].freq as nat));
    }
}

/// Two heaps of the same nodes have the same frequencies and cost the same.
pub proof fn lemma_roots_permutation(a: Seq<Node>, b: Seq<Node>)
    requires
        a.to_multiset() == b.to_multiset(),
    ensures
        root_weights(a) == root_weights(b),
        forest_cost(a) == forest_cost(b),
    decreases a.len(),
{
    broadcast use group_to_multiset_ensures;

    assert(a.to_multiset().len() == a.len());
    assert(b.to_multiset().len() == b.len());
    if a.len() > 0 {
        let x = a.last();
        assert(a.contains(x));
        assert(b.to_multiset().count(x) > 0);
        let j = choose|j: int| 0 <= j < b.len() && b[j] == x;
        assert(a.drop_last() =~= a.remove(a.len() - 1));
        lemma_roots_permutation(a.drop_last(), b.remove(j));
        lemma_roots_remove(b, j);
    }
}

/// A frequency among those of a heap is the frequency of one of its nodes.
pub proof fn lemma_roots_contains(s: Seq<Node>, w: nat) -> (j: int)
    requires
        root_weights(s).contains(w),
    ensures
        0 <= j < s.len(),
        s[j].freq == w,
    decreases s.len(),
{
    if s.len() == 0 {
        0
    } else if s.last().freq == w {
        s.len() - 1
    } else {
        lemma_roots_contains(s.drop_last(), w)
    }
}

/// The nodes of a table carry the table's frequencies and cost nothing.
pub proof fn lemma_leaf_nodes_roots(leaves: Seq<Leaf>)
    ensures
        root_weights(leaf_nodes(leaves)) == leaf_weights(leaves),
        forest_cost(leaf_nodes(leaves)) == 0,
    decreases leaves.len(),
{
    let nodes = leaf_nodes(leaves);
    if leaves.len() > 0 {
        lemma_leaf_nodes_roots(leaves.drop_last());
        assert(nodes.drop_last() =~= leaf_nodes(leaves.drop_last()));
        assert(nodes.last().freq as nat * 0 == 0) by (nonlinear_arith);
    }
}

/// A round of construction on a heap takes out a lightest frequency and a
/// lightest of the rest, puts their sum in, and adds the two to the cost.
pub proof fn lemma_merge_step_roots(s: Seq<Node>)
    requires
        s.len() >= 2,
        is_min_heap(s),
        all_well_formed(s),
        total_freq(s) <= u32::MAX,
    ensures
        ({
            let a = s[0].freq as nat;
            let b = without_min(s)[0].freq as nat;
            &&& root_weights(s).contains(a)
            &&& root_weights(s).remove(a).contains(b)
            &&& forall|w: nat| root_weights(s).contains(w) ==> a <= w
            &&& forall|w: nat| root_weights(s).remove(a).contains(w) ==> b <= w
            &&& root_weights(merge_step(s)) == root_weights(s).remove(a).remove(b).insert(a + b)
            &&& forest_cost(merge_step(s)) == forest_cost(s) + a + b
        }),
{
    broadcast use group_to_multiset_ensures;

    let rest = without_min(s);
    let rest2 = without_min(rest);
    let l = s[0];
    let r = rest[0];
    let a = l.freq as nat;
    let b = r.freq as nat;
    let node = joined(l, r);
    lemma_merge_joins_lightest(s);
    lemma_without_min(s);
    lemma_without_min(rest);
    lemma_with_node(rest2, node);
    // the heap, the rest and the rest of the rest
    lemma_roots_remove(s, 0);
    lemma_build_heap_is_min_heap(s.remove(0));
    lemma_roots_permutation(s.remove(0), rest);
    lemma_roots_remove(rest, 0);
    lemma_build_heap_is_min_heap(rest.remove(0));
    lemma_roots_permutation(rest.remove(0), rest2);
    // the new node
    assert(l.well_formed());
    assert(r.well_formed());
    assert(a + b <= total_freq(s));
    assert(node.freq == a + b);
    lemma_weighted_depth(l, 1);
    lemma_weighted_depth(r, 1);
    assert(l.freq * 1 == l.freq && r.freq * 1 == r.freq) by (nonlinear_arith);
    assert(node.cost() == l.cost() + r.cost() + a + b);
    let pushed = rest2.push(node);
    assert(pushed.drop_last() =~= rest2);
    lemma_roots_permutation(pushed, with_node(rest2, node));
    let all = root_weights(s);
    assert(all =~= root_weights(rest2).insert(b).insert(a));
    assert(root_weights(merge_step(s)) =~= all.remove(a).remove(b).insert(a + b));
    assert(all.remove(a) =~= root_weights(rest));
    assert forall|w: nat| all.contains(w) implies a <= w by {
        let j = lemma_roots_contains(s, w);
    }
    assert forall|w: nat| all.remove(a).contains(w) implies b <= w by {
        let j = lemma_roots_contains(rest, w);
    }
}

/// No shape over the frequencies of a heap costs less than what the rounds
/// of construction add to the heap's cost.
pub proof fn lemma_merge_cost_minimal(s: Seq<Node>, shape: Shape)
    requires
        s.len() >= 1,
        is_min_heap(s),
        all_well_formed(s),
        total_freq(s) <= u32::MAX,
        shape.weights() == root_weights(s),
    ensures
        merge_cost(s) <= shape.cost(),
    decreases s.len(),
{
    if s.len() >= 2 {
        let a = s[0].freq as nat;
        let b = without_min(s)[0].freq as nat;
        lemma_merge_step_roots(s);
        lemma_merge_step(s);
        lemma_weights_len(shape);
        assert(root_weights(s).len() >= 2) by {
            lemma_roots_len(s);
        }
        assert(shape is Fork);
        let paired = lemma_pair_lightest(shape, a, b);
        lemma_merge_cost_minimal(merge_step(s), paired);
    }
}

/// A heap has as many frequencies as nodes.
pub proof fn lemma_roots_len(s: Seq<Node>)
    ensures
        root_weights(s).len() == s.len(),
    decreases s.len(),
{
    if s.len() > 0 {
        lemma_roots_len(s.drop_last());
    }
}

/// The tree that construction makes of a heap costs what the trees of the
/// heap cost and what the rounds add.
pub proof fn lemma_merge_all_cost(s: Seq<Node>)
    requires
        s.len() >= 1,
        is_min_heap(s),
        all_well_formed(s),
        total_freq(s) <= u32::MAX,
    ensures
        merge_all(s)[0].cost() == forest_cost(s) + merge_cost(s),
    decreases s.len(),
{
    if s.len() <= 1 {
        assert(s.drop_last().len() == 0);
        assert(forest_cost(s.drop_last()) == 0);
    } else {
        lemma_merge_step_roots(s);
        lemma_merge_step(s);
        lemma_merge_all_cost(merge_step(s));
    }
}

/// The tree made of a table of leaves costs no more than any shape over the
/// table's frequencies.
pub proof fn lemma_tree_beats_shape(leaves: Seq<Leaf>, shape: Shape)
    requires
        leaves.len() > 0,
        leaf_sum(leaves) <= u32::MAX,
        shape.weights() == leaf_weights(leaves),
    ensures
        tree_of(leaf_nodes(leaves)) is Some,
        tree_of(leaf_nodes(leaves))->0.cost() <= shape.cost(),
{
    let nodes = leaf_nodes(leaves);
    let heap = build_heap(nodes);
    lemma_leaf_nodes(leaves);
    lemma_leaf_nodes_roots(leaves);
    lemma_build_heap_is_min_heap(nodes);
    lemma_forest_permutation(nodes, heap);
    lemma_roots_permutation(nodes, heap);
    lemma_merge_cost_minimal(heap, shape);
    lemma_merge_all_cost(heap);
}

/// The tree made of a table of leaves costs no more than any well-formed
/// tree over the same leaves.
pub proof fn lemma_tree_is_cheapest(leaves: Seq<Leaf>, other: Node)
    requires
        leaves.len() > 0,
        leaf_sum(leaves) <= u32::MAX,
        other.well_formed(),
        other.leaves().to_multiset() == leaves.to_multiset(),
    ensures
        tree_of(leaf_nodes(leaves)) is Some,
        tree_of(leaf_nodes(leaves))->0.cost() <= other.cost(),
{
    lemma_shape_of(other);
    lemma_leaf_weights_permutation(other.leaves(), leaves);
    lemma_tree_beats_shape(leaves, shape_of(other));
}

/// A weight with the code that it is given.
pub type Coded = (nat, Seq<bool>);

/// Whether neither code is the beginning of the other.
pub open spec fn unrelated(p: Seq<bool>, q: Seq<bool>) -> bool {
    !is_prefix(p, q) && !is_prefix(q, p)
}

/// Whether no code of the list is the beginning of another.
pub open spec fn prefix_free(items: Seq<Coded>) -> bool {
    forall|i: int, j: int|
        0 <= i < j < items.len() ==> unrelated((#[trigger] items[i]).1, (#[trigger] items[j]).1)
}

/// Whether every code of the list has a first bit.
pub open spec fn no_empty_code(items: Seq<Coded>) -> bool {
    forall|i: int| 0 <= i < items.len() ==> (#[trigger] items[i]).1.len() > 0
}

/// The weights of the list.
pub open spec fn item_weights(items: Seq<Coded>) -> Multiset<nat>
    decreases items.len(),
{
    if items.len() == 0 {
        Multiset::empty()
    } else {
        item_weights(items.drop_last()).insert(items.last().0)
    }
}

/// The sum of the weights of the list.
pub open spec fn item_weight(items: Seq<Coded>) -> nat
    decreases items.len(),
{
    if items.len() == 0 {
        0
    } else {
        item_weight(items.drop_last()) + items.last().0
    }
}

/// What the list costs in bits: each weight times the length of its code.
pub open spec fn item_cost(items: Seq<Coded>) -> nat
    decreases items.len(),
{
    if items.len() == 0 {
        0
    } else {
        item_cost(items.drop_last()) + items.last().0 * items.last().1.len()
    }
}

/// The sum of the lengths of the codes.
pub open spec fn total_len(items: Seq<Coded>) -> nat
    decreases items.len(),
{
    if items.len() == 0 {
        0
    } else {
        total_len(items.drop_last()) + items.last().1.len()
    }
}

/// The items whose code begins with `bit`, each with the rest of its code.
pub open spec fn side(items: Seq<Coded>, bit: bool) -> Seq<Coded>
    decreases items.len(),
{
    if items.len() == 0 {
        Seq::empty()
    } else if items.last().1.len() > 0 && items.last().1[0] == bit {
        side(items.drop_last(), bit).push((items.last().0, items.last().1.drop_first()))
    } else {
        side(items.drop_last(), bit)
    }
}

/// Codes that begin alike and are unrelated stay unrelated without their
/// first bit.
pub proof fn lemma_unrelated_tails(p: Seq<bool>, q: Seq<bool>)
    requires
        p.len() > 0,
        q.len() > 0,
        p[0] == q[0],
        unrelated(p, q),
    ensures
        unrelated(p.drop_first(), q.drop_first()),
{
    let pt = p.drop_first();
    let qt = q.drop_first();
    if is_prefix(pt, qt) {
        assert(q.take(p.len() as int) =~= p) by {
            assert forall|k: int| 0 <= k < p.len() implies q[k] == p[k] by {
                if k > 0 {
                    assert(qt.take(pt.len() as int)[k - 1] == pt[k - 1]);
                }
            }
        }
    }
    if is_prefix(qt, pt) {
        assert(p.take(q.len() as int) =~= q) by {
            assert forall|k: int| 0 <= k < q.len() implies p[k] == q[k] by {
                if k > 0 {
                    assert(pt.take(qt.len() as int)[k - 1] == qt[k - 1]);
                }
            }
        }
    }
}

/// Whether `e` is an item of the list that begins with `bit`, without that
/// bit.
pub open spec fn tail_of(items: Seq<Coded>, bit: bool, e: Coded) -> bool {
    exists|k: int|
        0 <= k < items.len() && (#[trigger] items[k]).1[0] == bit && e == (
            items[k].0,
            items[k].1.drop_first(),
        )
}

/// Each item of a side comes from an item of the list that begins with the
/// side's bit, and a prefix-free list has prefix-free sides.
pub proof fn lemma_side(items: Seq<Coded>, bit: bool)
    requires
        no_empty_code(items),
    ensures
        forall|m: int|
            0 <= m < side(items, bit).len() ==> tail_of(items, bit, #[trigger] side(items, bit)[m]),
        prefix_free(items) ==> prefix_free(side(items, bit)),
    decreases items.len(),
{
    if items.len() > 0 {
        let init = items.drop_last();
        let last = items.last();
        let s = side(items, bit);
        let si = side(init, bit);
        assert(no_empty_code(init)) by {
            assert forall|i: int| 0 <= i < init.len() implies (#[trigger] init[i]).1.len() > 0 by {
                assert(init[i] == items[i]);
            }
        }
        lemma_side(init, bit);
        assert(items[items.len() - 1] == last);
        assert forall|m: int| 0 <= m < s.len() implies tail_of(items, bit, #[trigger] s[m]) by {
            if m < si.len() {
                assert(tail_of(init, bit, si[m]));
                let k = choose|k: int|
                    0 <= k < init.len() && (#[trigger] init[k]).1[0] == bit && si[m] == (
                        init[k].0,
                        init[k].1.drop_first(),
                    );
                assert(items[k] == init[k]);
                assert(s[m] == si[m]);
            } else {
                assert(items[items.len() - 1].1[0] == bit);
            }
        }
        if prefix_free(items) {
            assert(prefix_free(init)) by {
                assert forall|i: int, j: int| 0 <= i < j < init.len() implies unrelated(
                    (#[trigger] init[i]).1,
                    (#[trigger] init[j]).1,
                ) by {
                    assert(init[i] == items[i] && init[j] == items[j]);
                }
            }
            assert forall|i: int, j: int| 0 <= i < j < s.len() implies unrelated(
                (#[trigger] s[i]).1,
                (#[trigger] s[j]).1,
            ) by {
                if j < si.len() {
                    assert(si[i] == s[i] && si[j] == s[j]);
                } else {
                    assert(tail_of(init, bit, si[i]));
                    let k = choose|k: int|
                        0 <= k < init.len() && (#[trigger] init[k]).1[0] == bit && si[i] == (
                            init[k].0,
                            init[k].1.drop_first(),
                        );
                    assert(items[k] == init[k]);
                    assert(s[i] == si[i]);
                    assert(unrelated(items[k].1, items[items.len() - 1].1));
                    lemma_unrelated_tails(items[k].1, last.1);
                }
            }
        }
    }
}

/// A list without an empty code falls into its two sides: the weights, the
/// lengths and the cost add up, each item paying its weight for its first
/// bit.
pub proof fn lemma_sides(items: Seq<Coded>)
    requires
        no_empty_code(items),
    ensures
        side(items, false).len() + side(items, true).len() == items.len(),
        item_weights(items) == item_weights(side(items, false)).add(
            item_weights(side(items, true)),
        ),
        item_weight(items) == item_weight(side(items, false)) + item_weight(side(items, true)),
        total_len(items) == total_len(side(items, false)) + total_len(side(items, true))
            + items.len(),
        item_cost(items) == item_cost(side(items, false)) + item_cost(side(items, true))
            + item_weight(items),
    decreases items.len(),
{
    if items.len() > 0 {
        let init = items.drop_last();
        let last = items.last();
        assert(no_empty_code(init)) by {
            assert forall|i: int| 0 <= i < init.len() implies (#[trigger] init[i]).1.len() > 0 by {
                assert(init[i] == items[i]);
            }
        }
        lemma_sides(init);
        assert(items[items.len() - 1] == last);
        let bit = last.1[0];
        let tail = last.1.drop_first();
        let grown = side(init, bit).push((last.0, tail));
        assert(side(items, bit) == grown);
        assert(side(items, !bit) == side(init, !bit));
        assert(grown.drop_last() =~= side(init, bit));
        assert(grown.last() == (last.0, tail));
        let w = last.0 as int;
        let n = tail.len() as int;
        assert(w * (n + 1) == w * n + w) by (nonlinear_arith);
        assert(item_weights(items) =~= item_weights(side(items, false)).add(
            item_weights(side(items, true)),
        ));
    }
}

/// Some shape over the weights of a prefix-free list costs no more than the
/// list: the shape of the codes, without the levels at which they do not
/// part.
pub proof fn lemma_code_shape(items: Seq<Coded>) -> (shape: Shape)
    requires
        items.len() >= 1,
        prefix_free(items),
    ensures
        shape.weights() == item_weights(items),
        shape.weight() == item_weight(items),
        shape.cost() <= item_cost(items),
    decreases total_len(items),
{
    if items.len() == 1 {
        assert(items.drop_last().len() == 0);
        assert(item_weights(items.drop_last()) =~= Multiset::<nat>::empty());
        assert(item_weight(items.drop_last()) == 0);
        let shape = Shape::Leaf(items[0].0);
        assert(shape.weights() =~= item_weights(items));
        shape
    } else {
        assert(no_empty_code(items)) by {
            assert forall|i: int| 0 <= i < items.len() implies (#[trigger] items[i]).1.len()
                > 0 by {
                if items[i].1.len() == 0 {
                    let j = if i == 0 { 1int } else { 0int };
                    assert(items[j].1.take(0) =~= items[i].1);
                    if i < j {
                        assert(unrelated(items[i].1, items[j].1));
                    } else {
                        assert(unrelated(items[j].1, items[i].1));
                    }
                }
            }
        }
        let zeros = side(items, false);
        let ones = side(items, true);
        lemma_sides(items);
        lemma_side(items, false);
        lemma_side(items, true);
        if zeros.len() == 0 {
            assert(item_weights(zeros) =~= Multiset::<nat>::empty());
            let shape = lemma_code_shape(ones);
            assert(shape.weights() =~= item_weights(items));
            shape
        } else if ones.len() == 0 {
            assert(item_weights(ones) =~= Multiset::<nat>::empty());
            let shape = lemma_code_shape(zeros);
            assert(shape.weights() =~= item_weights(items));
            shape
        } else {
            let left = lemma_code_shape(zeros);
            let right = lemma_code_shape(ones);
            Shape::Fork(Box::new(left), Box::new(right))
        }
    }
}

/// The leaves of a table, each frequency with the code of its symbol.
pub open spec fn coded_leaves(leaves: Seq<Leaf>, codes: Map<char, Seq<bool>>) -> Seq<Coded> {
    leaves.map_values(|l: Leaf| (l.1 as nat, codes[l.0]))
}

/// The bits that a text takes under a code table, counted leaf by leaf:
/// the occurrences of each leaf's symbol times the length of its code.
pub open spec fn leaves_bits(leaves: Seq<Leaf>, codes: Map<char, Seq<bool>>, text: Seq<char>) -> nat
    decreases leaves.len(),
{
    if leaves.len() == 0 {
        0
    } else {
        leaves_bits(leaves.drop_last(), codes, text) + occurrences(text, leaves.last().0)
            * codes[leaves.last().0].len()
    }
}

/// The coded leaves carry the table's frequencies; where the table carries
/// the counts of a text, they cost what the text takes, counted leaf by
/// leaf.
pub proof fn lemma_coded_leaves(leaves: Seq<Leaf>, codes: Map<char, Seq<bool>>, text: Seq<char>)
    ensures
        coded_leaves(leaves, codes).len() == leaves.len(),
        item_weights(coded_leaves(leaves, codes)) == leaf_weights(leaves),
        counts_text(leaves, text) ==> item_cost(coded_leaves(leaves, codes)) == leaves_bits(
            leaves,
            codes,
            text,
        ),
    decreases leaves.len(),
{
    if leaves.len() > 0 {
        let init = leaves.drop_last();
        lemma_coded_leaves(init, codes, text);
        assert(coded_leaves(leaves, codes).drop_last() =~= coded_leaves(init, codes));
        if counts_text(leaves, text) {
            assert(counts_text(init, text)) by {
                assert forall|i: int| 0 <= i < init.len() implies (#[trigger] init[i]).1
                    == occurrences(text, init[i].0) by {
                    assert(init[i] == leaves[i]);
                }
            }
            assert(leaves[leaves.len() - 1].1 == occurrences(text, leaves.last().0));
        }
    }
}

/// One symbol more in the text takes the length of its code more, counted
/// leaf by leaf over a table without a symbol twice; a symbol without a leaf
/// takes nothing.
pub proof fn lemma_leaves_bits_push(
    leaves: Seq<Leaf>,
    codes: Map<char, Seq<bool>>,
    text: Seq<char>,
    x: char,
)
    requires
        distinct_symbols(leaves),
    ensures
        leaves_bits(leaves, codes, text.push(x)) == leaves_bits(leaves, codes, text) + if has_symbol(
            leaves,
            x,
        ) {
            codes[x].len()
        } else {
            0
        },
    decreases leaves.len(),
{
    assert(text.push(x).drop_last() =~= text);
    if leaves.len() > 0 {
        let init = leaves.drop_last();
        let last = leaves.last();
        assert(leaves[leaves.len() - 1] == last);
        assert(distinct_symbols(init)) by {
            assert forall|i: int, j: int| 0 <= i < j < init.len() implies (#[trigger] init[i]).0 != (
            #[trigger] init[j]).0 by {
                assert(init[i] == leaves[i] && init[j] == leaves[j]);
            }
        }
        lemma_leaves_bits_push(init, codes, text, x);
        let n = occurrences(text, last.0) as int;
        let k = codes[last.0].len() as int;
        assert((n + 1) * k == n * k + k) by (nonlinear_arith);
        if has_symbol(init, x) {
            let i = choose|i: int| 0 <= i < init.len() && (#[trigger] init[i]).0 == x;
            assert(leaves[i] == init[i]);
            assert(last.0 != x);
        }
        if has_symbol(leaves, x) && last.0 != x {
            let i = choose|i: int| 0 <= i < leaves.len() && (#[trigger] leaves[i]).0 == x;
            assert(init[i] == leaves[i]);
        }
    }
}

/// Counted leaf by leaf or symbol by symbol, a text whose symbols all have
/// a leaf takes the same number of bits.
pub proof fn lemma_leaves_bits(leaves: Seq<Leaf>, codes: Map<char, Seq<bool>>, text: Seq<char>)
    requires
        distinct_symbols(leaves),
        forall|i: int| 0 <= i < text.len() ==> has_symbol(leaves, #[trigger] text[i]),
    ensures
        leaves_bits(leaves, codes, text) == encoded_bits(text, codes).len(),
    decreases text.len(),
{
    if text.len() == 0 {
        lemma_leaves_bits_empty(leaves, codes);
        assert(text =~= Seq::<char>::empty());
    } else {
        let before = text.drop_last();
        let x = text.last();
        assert(text =~= before.push(x));
        assert(has_symbol(leaves, text[text.len() - 1]));
        assert forall|i: int| 0 <= i < before.len() implies has_symbol(
            leaves,
            #[trigger] before[i],
        ) by {
            assert(before[i] == text[i]);
        }
        lemma_leaves_bits(leaves, codes, before);
        lemma_leaves_bits_push(leaves, codes, before, x);
    }
}

/// An empty text takes no bits.
pub proof fn lemma_leaves_bits_empty(leaves: Seq<Leaf>, codes: Map<char, Seq<bool>>)
    ensures
        leaves_bits(leaves, codes, Seq::empty()) == 0,
    decreases leaves.len(),
{
    if leaves.len() > 0 {
        lemma_leaves_bits_empty(leaves.drop_last(), codes);
        assert(0 * codes[leaves.last().0].len() == 0) by (nonlinear_arith);
    }
}

} // verus!
