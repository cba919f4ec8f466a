//! The codec.

use vstd::prelude::*;
use std::collections::HashMap;
use vstd::pervasive::VecAdditionalExecFns;
use vstd::slice::{slice_subrange, slice_to_vec};
use vstd::string::StringExecFns;
use crate::bits::{bit_of, byte_of, lemma_packed_push, offset_of, packed, payload_bits};
use crate::codes::{
    child, code_book, code_table, covers, decoded_text, encoded_bits, lemma_height_bound, walk,
};
use crate::error::Error;
use crate::format::{
    lemma_level_order_leaves, lemma_parsed_records_sum, lemma_records_bytes_concat,
    lemma_records_bytes_len, level_order, parse, parsed_records, preamble, record_count,
    records_bytes, table_of, wire, HEADER_LEN,
};
use crate::heap::{
    all_well_formed, build_from, build_heap, is_min_heap, leaf_nodes,
    lemma_build_heap_is_min_heap, lemma_forest_permutation, lemma_front_is_lightest,
    lemma_leaf_nodes, lemma_merge_step, lemma_with_node,
    lemma_sift_down_permutes, lemma_tree_of_leaves, lemma_without_min, merge_all, sift_down,
    sift_up, swapped, total_freq, tree_of, with_node, without_min, MAX_LEAVES,
};
use crate::leaves::{
    byte_symbols, leaf_sum, lemma_leaf_permutation, lemma_occurrences_bound, lemma_sorted_leaves,
    lemma_symbol_leaves, lemma_symbols_below_bound, occurrences, sort_leaves, sorted_leaves,
    symbol_leaves, ALPHABET,
};
use crate::node::{record_leaf, Leaf, Node, NODE_BYTES_LEN, NO_SYMBOL};
use crate::utils::{be32, be32_bytes, code_point, inc_bit, put_u32, read_u32, write_u32};

verus! {

broadcast use vstd::std_specs::hash::group_hash_axioms;

/// The outcome of one traversal step: a child to go on from, or the symbol of
/// the leaf that was reached.
#[derive(PartialEq)]
pub enum TravRes<'n> {
    Node(&'n Box<Node>),
    Char(char),
}

/// A codec: the text, the bytes, and what stands between them.
///
/// A codec made from a text holds the leaves of its frequency table in the
/// heap; `create_tree` makes the tree of them, `codes` the code table, and
/// `encode` the bytes. A codec made from bytes holds the leaves that the
/// bytes carry, and `decode` makes the tree and the text of them.
pub struct Huffman {
    data: String,
    bytes: Vec<u8>,
    frequencies: Vec<Leaf>,
    nodes: Vec<Node>,
    tree: Option<Box<Node>>,
    tree_height: usize,
    lookup: HashMap<u8, Vec<bool>>,
    offset_bit: Option<u32>,
    malformed: bool,
}

/// What a codec holds, as plain values.
pub struct HuffmanView {
    /// The text: the source of an encoding, or what has been decoded so far.
    pub text: Seq<char>,
    /// The bytes: the result of an encoding, or the payload to decode.
    pub bytes: Seq<u8>,
    /// The frequency table, in the order in which its leaves enter the heap.
    pub leaves: Seq<Leaf>,
    /// The nodes that wait in the heap.
    pub heap: Seq<Node>,
    /// The tree, once it is constructed.
    pub tree: Option<Node>,
    /// The height of the tree, as of the last code generation.
    pub height: nat,
    /// The code table: the bit path of each symbol, `true` for right.
    pub codes: Map<char, Seq<bool>>,
    /// The number of valid bits in the last payload byte; 0 if all are.
    pub offset: Option<u32>,
    /// Whether the bytes this codec was made from could not be parsed.
    pub malformed: bool,
}

/// The code table that a lookup table keyed by the bytes of the symbols
/// holds.
pub open spec fn table_codes(table: Map<u8, Vec<bool>>) -> Map<char, Seq<bool>> {
    Map::new(
        |c: char| 0 <= (c as int) < 256 && table.dom().contains((c as int) as u8),
        |c: char| table[(c as int) as u8]@,
    )
}

impl HuffmanView {
    /// The state of a codec that was just made from `text`.
    pub open spec fn of_text(text: Seq<char>) -> HuffmanView {
        let leaves = sorted_leaves(symbol_leaves(text, ALPHABET as nat));
        HuffmanView {
            text,
            bytes: Seq::empty(),
            leaves,
            heap: leaf_nodes(leaves),
            tree: None,
            height: 0,
            codes: Map::empty(),
            offset: None,
            malformed: false,
        }
    }
}

impl HuffmanView {
    /// The state of a codec that was just made from `bytes`: the frequency
    /// table in heap order and the payload, or, where the bytes cannot be
    /// taken apart, the bytes as they came and the mark of it.
    pub open spec fn of_bytes(bytes: Seq<u8>) -> HuffmanView {
        match parse(bytes) {
            Some(p) => HuffmanView {
                text: Seq::empty(),
                bytes: p.payload,
                leaves: sorted_leaves(p.records),
                heap: leaf_nodes(sorted_leaves(p.records)),
                tree: None,
                height: 0,
                codes: Map::empty(),
                offset: Some(p.offset),
                malformed: false,
            },
            None => HuffmanView {
                text: Seq::empty(),
                bytes,
                leaves: Seq::empty(),
                heap: Seq::empty(),
                tree: None,
                height: 0,
                codes: Map::empty(),
                offset: None,
                malformed: true,
            },
        }
    }

    /// The state after tree construction: the nodes of the heap have become
    /// the tree. A heap without nodes leaves the state as it is.
    pub open spec fn with_tree(self) -> HuffmanView {
        if self.heap.len() > 0 {
            HuffmanView { heap: Seq::empty(), tree: tree_of(self.heap), ..self }
        } else {
            self
        }
    }

    /// The state after code generation: the code table and the height are
    /// those of the tree. No tree leaves the state as it is.
    pub open spec fn with_codes(self) -> HuffmanView {
        match self.tree {
            Some(tree) => HuffmanView { codes: code_book(tree), height: tree.height(), ..self },
            None => self,
        }
    }

    /// The bits of the text under the code table.
    pub open spec fn bits(self) -> Seq<bool> {
        encoded_bits(self.text, self.codes)
    }

    /// The state after encoding: the bytes are the buffer written for the
    /// recorded height, the tree's frequency table and the bits of the text,
    /// and the offset bit is that of the bits.
    pub open spec fn after_encode(self) -> HuffmanView {
        HuffmanView {
            bytes: wire(self.height as u32, table_of(self.tree, self.height), self.bits()),
            offset: Some(offset_of(self.bits())),
            ..self
        }
    }

    /// The state after decoding: the tree is constructed, and the text has
    /// grown by what the valid bits of the payload decode to.
    pub open spec fn after_decode(self) -> HuffmanView {
        let made = self.with_tree();
        match made.tree {
            Some(tree) => HuffmanView {
                text: made.text + decoded_text(tree, payload_bits(made.bytes, made.offset)),
                ..made
            },
            None => made,
        }
    }
}

impl View for Huffman {
    type V = HuffmanView;

    closed spec fn view(&self) -> HuffmanView {
        HuffmanView {
            text: self.data@,
            bytes: self.bytes@,
            leaves: self.frequencies@,
            heap: self.nodes@,
            tree: match self.tree {
                Some(t) => Some(*t),
                None => None,
            },
            height: self.tree_height as nat,
            codes: table_codes(self.lookup@),
            offset: self.offset_bit,
            malformed: self.malformed,
        }
    }
}

/// The leaves that stand `level` levels down in a tree that may be absent.
pub open spec fn level_of(tree: Option<Box<Node>>, level: nat) -> Seq<Leaf> {
    match tree {
        Some(node) => node.level(level),
        None => Seq::empty(),
    }
}

/// Exchanges the nodes at two different positions.
fn swap_nodes(nodes: &mut Vec<Node>, i: usize, j: usize)
    requires
        i < old(nodes)@.len(),
        j < old(nodes)@.len(),
        i != j,
    ensures
        final(nodes)@ == swapped(old(nodes)@, i as int, j as int),
{
    let mut held = Node::new_node(NO_SYMBOL, 0);
    nodes.set_and_swap(i, &mut held);
    nodes.set_and_swap(j, &mut held);
    nodes.set(i, held);
    assert(nodes@ =~= swapped(old(nodes)@, i as int, j as int));
}

/// The leaf nodes of a table of leaves, in the table's order.
fn leaves_to_nodes(leaves: &Vec<Leaf>) -> (nodes: Vec<Node>)
    ensures
        nodes@ == leaf_nodes(leaves@),
{
    let mut nodes: Vec<Node> = Vec::new();
    let mut i: usize = 0;
    while i < leaves.len()
        invariant
            i <= leaves@.len(),
            nodes@ == leaf_nodes(leaves@.take(i as int)),
        decreases leaves@.len() - i,
    {
        let leaf = leaves[i];
        nodes.push(Node::new_node(leaf.0, leaf.1));
        proof {
            assert(nodes@ =~= leaf_nodes(leaves@.take(i + 1)));
        }
        i += 1;
    }
    proof {
        assert(leaves@.take(leaves@.len() as int) =~= leaves@);
    }
    nodes
}

/// How often the counts have seen the symbol with the code point `j`.
pub open spec fn counted(counts: Map<u8, u32>, j: int) -> int {
    if counts.dom().contains(j as u8) {
        counts[j as u8] as int
    } else {
        0
    }
}

/// A lookup table without entries.
fn empty_table() -> (table: HashMap<u8, Vec<bool>>)
    ensures
        table@ == Map::<u8, Vec<bool>>::empty(),
        table_codes(table@) == Map::<char, Seq<bool>>::empty(),
{
    let table: HashMap<u8, Vec<bool>> = HashMap::new();
    assert(table_codes(table@) =~= Map::<char, Seq<bool>>::empty());
    table
}

impl Huffman {
    /// The invariant of a codec: the frequency table is of a size and a total
    /// that the wire format can carry, its symbols fit one byte, and either
    /// its leaves wait in the heap or the tree has been made of them.
    pub closed spec fn wf(&self) -> bool {
        let leaves = self.frequencies@;
        &&& leaves.len() <= MAX_LEAVES
        &&& leaf_sum(leaves) <= u32::MAX
        &&& byte_symbols(leaves)
        &&& self.tree_height <= MAX_LEAVES
        &&& self.tree_height == 0 || (self.tree is Some && self.tree_height == self.tree->0.height())
        &&& match self.tree {
            None => self.nodes@ == leaf_nodes(leaves),
            Some(t) => self.nodes@.len() == 0 && leaves.len() > 0 && Some(*t) == tree_of(
                leaf_nodes(leaves),
            ),
        }
    }

    /// Makes a codec for `data`: counts how often each byte symbol occurs and
    /// puts one leaf per symbol that occurs into the heap, heavier first and by
    /// ascending symbol among equals. Symbols beyond one byte are not counted.
    pub fn from_str(data: &str) -> (codec: Huffman)
        requires
            data@.len() <= u32::MAX,
        ensures
            codec.wf(),
            codec@ == HuffmanView::of_text(data@),
    {
        let mut counts: HashMap<u8, u32> = HashMap::new();
        let ghost text = data@;
        for ch in it: data.chars()
            invariant
                it.seq() == text,
                text.len() <= u32::MAX,
                forall|j: int|
                    0 <= j < ALPHABET ==> #[trigger] counted(counts@, j) == occurrences(
                        text.take(it.index() as int),
                        j as char,
                    ),
        {
            let ghost before = text.take(it.index() as int);
            let ghost after = text.take(it.index() + 1);
            let ghost seen_before = counts@;
            proof {
                assert(after.drop_last() =~= before);
                assert(after.last() == ch);
            }
            let code = code_point(ch);
            if code < 256 {
                proof {
                    lemma_occurrences_bound(before, ch);
                    assert((code as int) as char == ch);
                    assert(counted(seen_before, code as int) == occurrences(before, ch));
                }
                let key = code as u8;
                let seen: u32 = match counts.get(&key) {
                    Some(n) => *n,
                    None => 0,
                };
                counts.insert(key, seen + 1);
            }
            proof {
                assert forall|j: int| 0 <= j < ALPHABET implies #[trigger] counted(counts@, j)
                    == occurrences(after, j as char) by {
                    assert((j as char) as int == j);
                    assert(counted(seen_before, j) == occurrences(before, j as char));
                }
            }
        }
        assert(text.take(text.len() as int) =~= text);
        let mut table: Vec<Leaf> = Vec::new();
        let mut n: usize = 0;
        while n < ALPHABET
            invariant
                n <= ALPHABET,
                forall|j: int|
                    0 <= j < ALPHABET ==> #[trigger] counted(counts@, j) == occurrences(
                        text,
                        j as char,
                    ),
                table@ == symbol_leaves(text, n as nat),
            decreases ALPHABET - n,
        {
            let key = n as u8;
            let seen: u32 = match counts.get(&key) {
                Some(c) => *c,
                None => 0,
            };
            proof {
                assert(seen == counted(counts@, n as int));
                assert(((n as u8) as char) == (n as int) as char);
            }
            if seen > 0 {
                table.push((key as char, seen));
            }
            n += 1;
        }
        let frequencies = sort_leaves(&table);
        let nodes = leaves_to_nodes(&frequencies);
        proof {
            lemma_symbol_leaves(text, ALPHABET as nat);
            lemma_sorted_leaves(table@);
            lemma_leaf_permutation(table@, frequencies@);
            assert(leaf_sum(table@) <= text.len()) by {
                lemma_symbols_below_bound(text, ALPHABET as nat);
            }
        }
        Huffman {
            data: String::from_str(data),
            bytes: Vec::new(),
            frequencies,
            nodes,
            tree: None,
            tree_height: 0,
            lookup: empty_table(),
            offset_bit: None,
            malformed: false,
        }
    }

    /// Sift-down: while a child of the node at `idx` is strictly lighter,
    /// exchanges the node with its lightest child and goes on from there.
    pub fn heapify(nodes: &mut Vec<Node>, idx: usize)
        requires
            idx <= old(nodes)@.len() <= MAX_LEAVES,
        ensures
            final(nodes)@ == sift_down(old(nodes)@, idx as int),
        decreases old(nodes)@.len() - idx,
    {
        let mut smallest = idx;
        let left = 2 * idx + 1;
        let right = 2 * idx + 2;
        if left < nodes.len() && nodes[left].freq < nodes[smallest].freq {
            smallest = left;
        }
        if right < nodes.len() && nodes[right].freq < nodes[smallest].freq {
            smallest = right;
        }
        if smallest != idx {
            swap_nodes(nodes, smallest, idx);
            Self::heapify(nodes, smallest);
        }
    }

    /// Restores the heap invariant on an arbitrary sequence of nodes:
    /// sift-down from the last position that has a child down to position 0.
    /// Afterwards no node is heavier than either of its children.
    pub fn build(nodes: &mut Vec<Node>)
        requires
            old(nodes)@.len() <= MAX_LEAVES,
        ensures
            final(nodes)@ == build_heap(old(nodes)@),
            is_min_heap(final(nodes)@),
            final(nodes)@.len() == old(nodes)@.len(),
            final(nodes)@.to_multiset() == old(nodes)@.to_multiset(),
    {
        proof {
            lemma_build_heap_is_min_heap(nodes@);
        }
        if nodes.len() < 2 {
            return ;
        }
        let mut idx: usize = (nodes.len() - 2) / 2 + 1;
        while idx > 0
            invariant
                idx <= nodes@.len() == old(nodes)@.len() <= MAX_LEAVES,
                build_from(nodes@, idx - 1) == build_heap(old(nodes)@),
            decreases idx,
        {
            idx -= 1;
            proof {
                lemma_sift_down_permutes(nodes@, idx as int);
            }
            Self::heapify(nodes, idx);
        }
    }

    /// Takes the node at the front out: the rest moves up by one position
    /// and the heap is built again. What is left is a heap of the other
    /// nodes, and in a heap the node that was taken out is a lightest one.
    pub fn get_min(nodes: &mut Vec<Node>) -> (min: Node)
        requires
            1 <= old(nodes)@.len() <= MAX_LEAVES,
        ensures
            min == old(nodes)@[0],
            final(nodes)@ == without_min(old(nodes)@),
            is_min_heap(final(nodes)@),
            final(nodes)@.to_multiset() == old(nodes)@.to_multiset().remove(min),
            is_min_heap(old(nodes)@) ==> forall|j: int|
                0 <= j < old(nodes)@.len() ==> min.freq <= (#[trigger] old(nodes)@[j]).freq,
    {
        proof {
            lemma_without_min(nodes@);
            if is_min_heap(nodes@) {
                assert forall|j: int| 0 <= j < nodes@.len() implies nodes@[0].freq <= (
                #[trigger] nodes@[j]).freq by {
                    lemma_front_is_lightest(nodes@, j);
                }
            }
        }
        let min = nodes.remove(0);
        Self::build(nodes);
        min
    }

    /// Adds a node at the end and moves it up while its parent is strictly
    /// heavier. A heap stays a heap, of the same nodes and the new one.
    pub fn insert(nodes: &mut Vec<Node>, node: Node)
        requires
            old(nodes)@.len() < MAX_LEAVES,
        ensures
            final(nodes)@ == with_node(old(nodes)@, node),
            is_min_heap(old(nodes)@) ==> is_min_heap(final(nodes)@),
            final(nodes)@.to_multiset() == old(nodes)@.to_multiset().insert(node),
    {
        proof {
            lemma_with_node(nodes@, node);
        }
        nodes.push(node);
        let mut i: usize = nodes.len() - 1;
        while i > 0 && nodes[i].freq < nodes[(i - 1) / 2].freq
            invariant
                i < nodes@.len() == old(nodes)@.len() + 1,
                sift_up(nodes@, i as int) == with_node(old(nodes)@, node),
            decreases i,
        {
            swap_nodes(nodes, i, (i - 1) / 2);
            i = (i - 1) / 2;
        }
    }

    /// Constructs the tree from the nodes in the heap: builds the heap, then
    /// takes out the two lightest nodes, one after the other, and joins them
    /// into a node that goes back in, until one node is left, which becomes
    /// the root. A heap without nodes leaves the codec as it is.
    pub fn create_tree(&mut self)
        requires
            old(self).wf(),
        ensures
            final(self).wf(),
            final(self)@ == old(self)@.with_tree(),
    {
        if self.nodes.len() == 0 {
            return ;
        }
        let ghost leaves = self.frequencies@;
        let ghost start = self.nodes@;
        proof {
            lemma_leaf_nodes(leaves);
            lemma_tree_of_leaves(leaves);
        }
        let mut nodes: Vec<Node> = Vec::new();
        core::mem::swap(&mut nodes, &mut self.nodes);
        Self::build(&mut nodes);
        proof {
            lemma_forest_permutation(start, nodes@);
        }
        while nodes.len() > 1
            invariant
                1 <= nodes@.len() <= MAX_LEAVES,
                is_min_heap(nodes@),
                all_well_formed(nodes@),
                total_freq(nodes@) <= u32::MAX,
                merge_all(nodes@) == merge_all(build_heap(start)),
            decreases nodes@.len(),
        {
            proof {
                lemma_merge_step(nodes@);
                lemma_without_min(nodes@);
                lemma_without_min(without_min(nodes@));
            }
            let left = Self::get_min(&mut nodes);
            let right = Self::get_min(&mut nodes);
            let mut top = Node::new_node(NO_SYMBOL, left.freq + right.freq);
            top.left = Some(Box::new(left));
            top.right = Some(Box::new(right));
            Self::insert(&mut nodes, top);
        }
        let ghost last = nodes@;
        let root = Self::get_min(&mut nodes);
        proof {
            assert(nodes@ =~= Seq::<Node>::empty());
            assert(merge_all(last) == last);
            assert(Some(root) == tree_of(start));
        }
        self.nodes = nodes;
        self.tree = Some(Box::new(root));
    }

    /// Generates the code table and the height from the tree, if there is
    /// one: each symbol gets the path from the root to its leaf. A root
    /// that is itself a leaf gives its symbol the one-bit code `false`.
    pub fn codes(&mut self)
        requires
            old(self).wf(),
        ensures
            final(self).wf(),
            final(self)@ == old(self)@.with_codes(),
    {
        if let Some(tree) = &self.tree {
            proof {
                lemma_tree_of_leaves(self.frequencies@);
                lemma_leaf_permutation(self.frequencies@, tree.leaves());
                lemma_height_bound(**tree);
            }
            let mut lookup = empty_table();
            let mut height: usize = 0;
            if tree.is_leave() {
                let mut code: Vec<bool> = Vec::new();
                code.push(false);
                assert(code@ =~= seq![false]);
                proof {
                    assert(tree.leaves()[0] == tree.as_leaf());
                }
                lookup.insert(code_point(tree.ch) as u8, code);
                height = 1;
                assert(table_codes(lookup@) =~= code_book(**tree));
            } else {
                let mut path: Vec<bool> = Vec::new();
                Self::prepare_codes(tree, &mut path, &mut lookup, &mut height);
                assert(table_codes(lookup@) =~= code_book(**tree));
            }
            self.lookup = lookup;
            self.tree_height = height;
        }
    }

    /// Walks the tree below `root` depth first, left before right, with the
    /// path so far in `path`, and enters the path of each leaf into the
    /// lookup table; `height` is raised to the deepest level seen.
    fn prepare_codes(
        root: &Node,
        path: &mut Vec<bool>,
        lookup: &mut HashMap<u8, Vec<bool>>,
        height: &mut usize,
    )
        requires
            root.well_formed(),
            byte_symbols(root.leaves()),
            old(path)@.len() + root.height() <= MAX_LEAVES,
        ensures
            final(path)@ == old(path)@,
            table_codes(final(lookup)@) == table_codes(old(lookup)@).union_prefer_right(
                code_table(*root, old(path)@),
            ),
            *final(height) == if *old(height) >= old(path)@.len() + root.height() {
                *old(height) as nat
            } else {
                old(path)@.len() + root.height()
            },
        decreases root,
    {
        let ghost start = path@;
        let ghost table = table_codes(lookup@);
        proof {
            if !root.is_leaf() {
                let l = *root.left->0;
                let r = *root.right->0;
                assert forall|i: int| 0 <= i < l.leaves().len() implies ((
                #[trigger] l.leaves()[i]).0 as int) < 256 by {
                    assert(root.leaves()[i] == l.leaves()[i]);
                }
                assert forall|i: int| 0 <= i < r.leaves().len() implies ((
                #[trigger] r.leaves()[i]).0 as int) < 256 by {
                    assert(root.leaves()[l.leaves().len() + i] == r.leaves()[i]);
                }
            }
        }
        if let Some(left) = &root.left {
            path.push(false);
            Self::prepare_codes(left, path, lookup, height);
            path.pop();
            assert(path@ =~= start);
        }
        if let Some(right) = &root.right {
            path.push(true);
            Self::prepare_codes(right, path, lookup, height);
            path.pop();
            assert(path@ =~= start);
        }
        if root.is_leave() {
            proof {
                assert(root.leaves()[0] == root.as_leaf());
            }
            let code = path.clone();
            assert(code@ =~= start);
            lookup.insert(code_point(root.ch) as u8, code);
            if path.len() + 1 > *height {
                *height = path.len() + 1;
            }
        }
        assert(table_codes(lookup@) =~= table.union_prefer_right(code_table(*root, start)));
    }

    /// The code of a symbol, if the code table has one.
    pub fn get_path(&self, ch: char) -> (path: Option<&Vec<bool>>)
        requires
            self.wf(),
        ensures
            path is Some == self@.codes.dom().contains(ch),
            path is Some ==> path->0@ == self@.codes[ch],
    {
        let code = code_point(ch);
        if code < 256 {
            self.lookup.get(&(code as u8))
        } else {
            None
        }
    }

    /// Encodes the text: writes the height, the length of the frequency
    /// table and the table itself, level by level, then packs the code of
    /// each symbol of the text into bytes, least significant bit first, and
    /// records the offset bit in front of them: the number of bits in the
    /// last byte, or 0 where the last byte is full. A symbol without a code
    /// is an encoding error, and the codec stays as it was.
    pub fn encode(&mut self) -> (r: Result<(), Error>)
        requires
            old(self).wf(),
        ensures
            final(self).wf(),
            covers(old(self)@.codes, old(self)@.text) ==> r is Ok && final(self)@ == old(
                self,
            )@.after_encode(),
            !covers(old(self)@.codes, old(self)@.text) ==> r is Err && r->Err_0 is Encoding
                && final(self)@ == old(self)@,
    {
        let mut out = self.serialize();
        let start_idx = out.len();
        write_u32(&mut out, 0);
        let ghost text = self@.text;
        let ghost codes = self@.codes;
        let ghost head = out@;
        let ghost full: Seq<bool> = Seq::empty();
        let ghost partial: Seq<bool> = Seq::empty();
        let mut byte: u8 = 0;
        let mut bit: u8 = 0;
        proof {
            assert(text.take(0) =~= Seq::<char>::empty());
            assert(full + partial =~= encoded_bits(text.take(0), codes));
            assert(head + packed(full) =~= head);
        }
        for ch in it: self.data.as_str().chars()
            invariant
                self.wf(),
                self@.text == text,
                self@.codes == codes,
                it.seq() == text,
                covers(codes, text.take(it.index() as int)),
                full + partial == encoded_bits(text.take(it.index() as int), codes),
                full.len() % 8 == 0,
                partial.len() == bit < 8,
                byte == byte_of(partial),
                out@ == head + packed(full),
        {
            let ghost done = text.take(it.index() as int);
            let ghost next = text.take(it.index() + 1);
            proof {
                assert(next.drop_last() =~= done);
                assert(next.last() == ch);
            }
            match self.get_path(ch) {
                None => {
                    proof {
                        assert(text[it.index() as int] == ch);
                    }
                    return Err(
                        Error::Encoding(
                            "could not get the path of a symbol".to_owned(),
                            String::new(),
                        ),
                    );
                },
                Some(path) => {
                    let ghost before = full + partial;
                    proof {
                        assert(path@.take(0) =~= Seq::<bool>::empty());
                        assert(before + path@.take(0) =~= before);
                    }
                    for k in 0..path.len()
                        invariant
                            full + partial == before + path@.take(k as int),
                            full.len() % 8 == 0,
                            partial.len() == bit < 8,
                            byte == byte_of(partial),
                            out@ == head + packed(full),
                    {
                        let dir = path[k];
                        let ghost grown = partial.push(dir);
                        proof {
                            assert(grown.drop_last() =~= partial);
                            assert(path@.take(k + 1) =~= path@.take(k as int).push(dir));
                            assert(full + grown =~= (full + partial).push(dir));
                            assert((before + path@.take(k as int)).push(dir) =~= before
                                + path@.take(k as int).push(dir));
                            assert(full + grown =~= before + path@.take(k + 1));
                        }
                        if dir {
                            byte = byte | (1u8 << bit);
                        }
                        assert(byte == byte_of(grown));
                        if inc_bit(&mut bit) {
                            proof {
                                lemma_packed_push(full, grown);
                                assert(head + packed(full + grown) =~= (head + packed(full)).push(
                                    byte,
                                ));
                                full = full + grown;
                                partial = Seq::empty();
                                assert(full + partial =~= before + path@.take(k + 1));
                            }
                            out.push(byte);
                            byte = 0;
                        } else {
                            proof {
                                partial = grown;
                            }
                        }
                    }
                    proof {
                        assert(path@.take(path@.len() as int) =~= path@);
                        assert(covers(codes, next)) by {
                            assert forall|i: int| 0 <= i < next.len() implies codes.dom().contains(
                                #[trigger] next[i],
                            ) by {
                                if i < done.len() {
                                    assert(done[i] == next[i]);
                                }
                            }
                        }
                    }
                },
            }
        }
        proof {
            assert(text.take(text.len() as int) =~= text);
        }
        let ghost bits = encoded_bits(text, codes);
        if bit != 0 {
            proof {
                lemma_packed_push(full, partial);
                assert(head + packed(bits) =~= (head + packed(full)).push(byte));
            }
            out.push(byte);
        } else {
            proof {
                assert(partial =~= Seq::<bool>::empty());
                assert(full + partial =~= full);
            }
        }
        put_u32(&mut out, start_idx, bit as u32);
        proof {
            let pre = preamble(self@.height as u32, table_of(self@.tree, self@.height));
            assert(head == pre + be32_bytes(0));
            assert(out@ =~= wire(self@.height as u32, table_of(self@.tree, self@.height), bits));
        }
        self.bytes = out;
        self.offset_bit = Some(bit as u32);
        Ok(())
    }

    /// The height, the length of the frequency table in bytes, and the
    /// table: one record for each leaf, level by level from the root down to
    /// the recorded height.
    fn serialize(&self) -> (bytes: Vec<u8>)
        requires
            self.wf(),
        ensures
            bytes@ == preamble(self@.height as u32, table_of(self@.tree, self@.height)),
    {
        let mut bytes: Vec<u8> = Vec::new();
        write_u32(&mut bytes, 0);
        write_u32(&mut bytes, 0);
        let ghost zeros = bytes@;
        let ghost tree = self@.tree;
        proof {
            assert(table_of(tree, 0) =~= Seq::<Leaf>::empty());
            assert(zeros + records_bytes(table_of(tree, 0)) =~= zeros);
        }
        let mut i: usize = 0;
        while i < self.tree_height
            invariant
                i <= self.tree_height,
                tree == self@.tree,
                zeros.len() == 8,
                bytes@ == zeros + records_bytes(table_of(tree, i as nat)),
            decreases self.tree_height - i,
        {
            i += 1;
            proof {
                if tree is Some {
                    lemma_records_bytes_concat(
                        level_order(tree->0, (i - 1) as nat),
                        tree->0.level(i as nat),
                    );
                }
                assert(records_bytes(Seq::<Leaf>::empty()) =~= Seq::<u8>::empty());
            }
            Self::current_level(&self.tree, i, &mut bytes);
        }
        let ghost records = table_of(tree, self.tree_height as nat);
        proof {
            lemma_records_bytes_len(records);
            if self.tree_height != 0 {
                lemma_tree_of_leaves(self.frequencies@);
                lemma_level_order_leaves(tree->0, self.tree_height as nat);
            }
        }
        let tree_len = bytes.len() - HEADER_LEN;
        put_u32(&mut bytes, 0, self.tree_height as u32);
        put_u32(&mut bytes, 4, tree_len as u32);
        assert(bytes@ =~= preamble(self.tree_height as u32, records));
        bytes
    }

    /// Appends the records of the leaves that stand `level` levels down from
    /// `root`, left to right; `root` itself is at level 1.
    fn current_level(root: &Option<Box<Node>>, level: usize, buffer: &mut Vec<u8>)
        ensures
            final(buffer)@ == old(buffer)@ + records_bytes(level_of(*root, level as nat)),
        decreases level,
    {
        proof {
            assert(records_bytes(Seq::<Leaf>::empty()) =~= Seq::<u8>::empty());
            assert(buffer@ + Seq::<u8>::empty() =~= buffer@);
        }
        if let Some(node) = root {
            if level == 1 {
                if let Some(mut flat) = node.flat() {
                    proof {
                        let one = seq![node.as_leaf()];
                        assert(one.drop_last() =~= Seq::<Leaf>::empty());
                        assert(records_bytes(one) =~= flat@);
                    }
                    buffer.append(&mut flat);
                }
            }
            if level > 1 {
                let ghost l = level_of(node.left, (level - 1) as nat);
                let ghost r = level_of(node.right, (level - 1) as nat);
                proof {
                    lemma_records_bytes_concat(l, r);
                }
                Self::current_level(&node.left, level - 1, buffer);
                Self::current_level(&node.right, level - 1, buffer);
                assert(buffer@ =~= old(buffer)@ + records_bytes(l + r));
            }
        }
    }

    /// Makes a codec for a buffer: takes the buffer apart and puts the
    /// leaves of its frequency table into the heap, heavier first and by
    /// ascending symbol among equals. A buffer that cannot be taken apart
    /// makes a codec that holds the buffer as it came and fails to decode.
    pub fn from_bytes(bytes: &[u8]) -> (codec: Huffman)
        ensures
            codec.wf(),
            codec@ == HuffmanView::of_bytes(bytes@),
    {
        let mut code = Huffman {
            data: String::new(),
            bytes: slice_to_vec(bytes),
            frequencies: Vec::new(),
            nodes: Vec::new(),
            tree: None,
            tree_height: 0,
            lookup: empty_table(),
            offset_bit: None,
            malformed: false,
        };
        proof {
            assert(code.nodes@ =~= leaf_nodes(code.frequencies@));
            assert(leaf_sum(code.frequencies@) == 0);
        }
        match code.deserialize() {
            Err(_) => {
                code.malformed = true;
            },
            Ok(()) => {
                let ghost records = code.frequencies@;
                let frequencies = sort_leaves(&code.frequencies);
                let nodes = leaves_to_nodes(&frequencies);
                proof {
                    lemma_sorted_leaves(records);
                    lemma_leaf_permutation(records, frequencies@);
                }
                code.frequencies = frequencies;
                code.nodes = nodes;
            },
        }
        code
    }

    /// Takes the bytes of a codec without leaves apart: skips the height,
    /// reads the length of the frequency table and that many bytes of
    /// five-byte records, then the offset bit, and keeps the rest as the
    /// payload. The leaves enter the heap in the order of their records.
    /// Where the bytes run out, or the frequencies add up to more than 32
    /// bits hold, this is a conversion error and nothing changes.
    pub(crate) fn deserialize(&mut self) -> (r: Result<(), Error>)
        requires
            old(self).wf(),
            old(self)@.leaves.len() == 0,
        ensures
            final(self).wf(),
            match parse(old(self)@.bytes) {
                Some(p) => r is Ok && final(self)@ == (HuffmanView {
                    leaves: p.records,
                    heap: leaf_nodes(p.records),
                    offset: Some(p.offset),
                    bytes: p.payload,
                    ..old(self)@
                }),
                None => r is Err && r->Err_0 is Conversion && final(self)@ == old(self)@,
            },
    {
        let len = self.bytes.len();
        if len < HEADER_LEN {
            return Err(
                Error::Conversion("the header is truncated".to_owned(), String::new()),
            );
        }
        let ghost b = self.bytes@;
        let input = self.bytes.as_slice();
        let table_len = match read_u32(slice_subrange(input, 4, 8)) {
            Ok(n) => n as usize,
            Err(e) => {
                return Err(e);
            },
        };
        let ghost n = record_count(table_len as nat);
        let ghost table = b.skip(8);
        let mut frequencies: Vec<Leaf> = Vec::new();
        let mut nodes: Vec<Node> = Vec::new();
        let mut total: u64 = 0;
        let mut processed: usize = 0;
        let mut pos: usize = HEADER_LEN;
        while processed < table_len
            invariant
                *self == *old(self),
                self.wf(),
                self@.leaves.len() == 0,
                b == self.bytes@,
                input@ == b,
                len == b.len(),
                table == b.skip(8),
                table_len <= u32::MAX,
                table_len == be32(b.subrange(4, 8)),
                n == record_count(table_len as nat),
                processed % 5 == 0,
                processed <= table_len + 4,
                processed / 5 <= n,
                pos == 8 + processed,
                pos <= len,
                frequencies@ == parsed_records(table, (processed / 5) as nat),
                nodes@ == leaf_nodes(frequencies@),
                total == leaf_sum(frequencies@),
                total <= u32::MAX,
                byte_symbols(frequencies@),
            decreases table_len + 5 - processed,
        {
            let ghost k = (processed / 5) as nat;
            proof {
                assert(k + 1 <= n);
                lemma_parsed_records_sum(table, k + 1, n);
                lemma_parsed_records_sum(table, k, k);
            }
            let node = match Node::from_flat(slice_subrange(input, pos, len)) {
                Ok(node) => node,
                Err(e) => {
                    return Err(e);
                },
            };
            proof {
                let rest = b.subrange(pos as int, len as int);
                let rec = table.subrange(5 * k as int, 5 * (k + 1) as int);
                assert(rest[0] == rec[0]);
                assert(rest.subrange(1, 5) =~= rec.subrange(1, 5));
                assert(record_leaf(rest) == record_leaf(rec));
                assert(parsed_records(table, k + 1) == parsed_records(table, k).push(
                    record_leaf(rec),
                ));
                assert(parsed_records(table, k + 1).drop_last() =~= parsed_records(table, k));
                assert((rest[0] as char) as int == rest[0]);
            }
            if total + node.freq as u64 > u32::MAX as u64 {
                return Err(
                    Error::Conversion(
                        "the frequencies exceed 32 bits".to_owned(),
                        String::new(),
                    ),
                );
            }
            total = total + node.freq as u64;
            frequencies.push((node.ch, node.freq));
            nodes.push(node);
            proof {
                assert(nodes@ =~= leaf_nodes(frequencies@));
            }
            pos += NODE_BYTES_LEN;
            processed += NODE_BYTES_LEN;
        }
        assert(processed / 5 == n);
        if len - pos < 4 {
            return Err(
                Error::Conversion("the offset bit is truncated".to_owned(), String::new()),
            );
        }
        let offset = match read_u32(slice_subrange(input, pos, pos + 4)) {
            Ok(offset) => offset,
            Err(e) => {
                return Err(e);
            },
        };
        let payload = slice_to_vec(slice_subrange(input, pos + 4, len));
        proof {
            lemma_parsed_records_sum(table, n, n);
            assert(payload@ =~= b.skip(12 + 5 * n as int));
        }
        self.frequencies = frequencies;
        self.nodes = nodes;
        self.offset_bit = Some(offset);
        self.bytes = payload;
        Ok(())
    }

    /// Decodes the payload: constructs the tree, then follows the valid
    /// bits of the payload from the root, left for a clear bit and right for
    /// a set one; each leaf that is reached adds its symbol to the text, and
    /// the walk starts again at the root. A tree that is a single leaf
    /// adds its symbol as often as its frequency says. A codec made from
    /// bytes that could not be taken apart fails with a conversion error
    /// and stays as it was.
    pub fn decode(&mut self) -> (r: Result<(), Error>)
        requires
            old(self).wf(),
        ensures
            final(self).wf(),
            old(self)@.malformed ==> r is Err && r->Err_0 is Conversion && final(self)@ == old(
                self,
            )@,
            !old(self)@.malformed ==> r is Ok && final(self)@ == old(self)@.after_decode(),
    {
        if self.malformed {
            return Err(
                Error::Conversion("the buffer could not be read".to_owned(), String::new()),
            );
        }
        self.create_tree();
        let ghost made = self@;
        let mut text = String::new();
        core::mem::swap(&mut text, &mut self.data);
        let ghost start = text@;
        if let Some(root) = &self.tree {
            proof {
                lemma_tree_of_leaves(self.frequencies@);
            }
            let ghost bits = payload_bits(self.bytes@, self.offset_bit);
            if root.is_leave() {
                let mut k: u32 = 0;
                while k < root.freq
                    invariant
                        k <= root.freq,
                        text@ == start + Seq::new(k as nat, |i: int| root.ch),
                    decreases root.freq - k,
                {
                    text.push(root.ch);
                    k += 1;
                    assert(text@ =~= start + Seq::new(k as nat, |i: int| root.ch));
                }
            } else {
                let len = self.bytes.len();
                let mut node: &Node = root;
                let ghost emitted: Seq<char> = Seq::empty();
                let ghost consumed: int = 0;
                proof {
                    assert(bits.skip(0) =~= bits);
                    assert(start + emitted =~= start);
                }
                for i in 0..len
                    invariant
                        len == self.bytes@.len(),
                        bits == payload_bits(self.bytes@, self.offset_bit),
                        root.well_formed(),
                        !root.is_leaf(),
                        node.well_formed(),
                        !node.is_leaf(),
                        consumed == if i < len { 8 * i } else { bits.len() as int },
                        text@ == start + emitted,
                        walk(**root, **root, bits) == emitted + walk(
                            **root,
                            *node,
                            bits.skip(consumed),
                        ),
                {
                    let byte = self.bytes[i];
                    let limit: u8 = match self.offset_bit {
                        Some(offset) => if i == len - 1 && 1 <= offset && offset <= 7 {
                            offset as u8
                        } else {
                            8
                        },
                        None => 8,
                    };
                    let mut bit: u8 = 0;
                    while bit < limit
                        invariant
                            i < len == self.bytes@.len(),
                            byte == self.bytes@[i as int],
                            bit <= limit <= 8,
                            8 * i + limit <= bits.len(),
                            i == len - 1 ==> 8 * i + limit == bits.len(),
                            bits == payload_bits(self.bytes@, self.offset_bit),
                            root.well_formed(),
                            !root.is_leaf(),
                            node.well_formed(),
                            !node.is_leaf(),
                            consumed == 8 * i + bit,
                            text@ == start + emitted,
                            walk(**root, **root, bits) == emitted + walk(
                                **root,
                                *node,
                                bits.skip(consumed),
                            ),
                        decreases limit - bit,
                    {
                        let set = (byte >> bit) & 1 == 1;
                        let dir: u8 = if set { 1 } else { 0 };
                        let ghost rest = bits.skip(consumed);
                        proof {
                            assert(rest[0] == bits[consumed]);
                            assert(consumed / 8 == i && consumed % 8 == bit);
                            assert(bits[consumed] == bit_of(byte, bit));
                            assert(rest.drop_first() =~= bits.skip(consumed + 1));
                        }
                        match node.next(dir) {
                            Ok(TravRes::Node(below)) => {
                                if below.is_leave() {
                                    text.push(below.ch);
                                    node = root;
                                    proof {
                                        emitted = emitted.push(below.ch);
                                    }
                                } else {
                                    node = below;
                                }
                            },
                            Ok(TravRes::Char(_)) => {
                                return Err(
                                    Error::Heapify(
                                        "a leaf stands where a node is expected".to_owned(),
                                        String::new(),
                                    ),
                                );
                            },
                            Err(e) => {
                                return Err(e);
                            },
                        }
                        bit += 1;
                        proof {
                            consumed = consumed + 1;
                        }
                    }
                    proof {
                        if i + 1 < len {
                            assert(limit == 8);
                        }
                    }
                }
                proof {
                    assert(bits.skip(bits.len() as int) =~= Seq::<bool>::empty());
                    assert(emitted + Seq::<char>::empty() =~= emitted);
                }
            }
        }
        self.data = text;
        Ok(())
    }

    /// A copy of the bytes.
    pub fn bytes(&self) -> (bytes: Vec<u8>)
        ensures
            bytes@ == self@.bytes,
    {
        self.bytes.clone()
    }

    /// A copy of the text.
    pub fn data(&self) -> (text: String)
        ensures
            text@ == self@.text,
    {
        self.data.clone()
    }

    /// Appends the bytes to `buffer`.
    pub fn read_bytes_into(&self, buffer: &mut Vec<u8>)
        ensures
            final(buffer)@ == old(buffer)@ + self@.bytes,
    {
        let mut i: usize = 0;
        while i < self.bytes.len()
            invariant
                i <= self.bytes@.len(),
                buffer@ == old(buffer)@ + self.bytes@.take(i as int),
            decreases self.bytes@.len() - i,
        {
            buffer.push(self.bytes[i]);
            i += 1;
            assert(buffer@ =~= old(buffer)@ + self.bytes@.take(i as int));
        }
        assert(self.bytes@.take(self.bytes@.len() as int) =~= self.bytes@);
    }

    /// Appends the text to `buffer`, in UTF-8.
    pub fn data_to_bytes(&self, buffer: &mut Vec<u8>)
        ensures
            final(buffer)@ == old(buffer)@ + vstd::utf8::encode_utf8(self@.text),
    {
        let bytes = self.data.as_str().as_bytes();
        let mut i: usize = 0;
        while i < bytes.len()
            invariant
                i <= bytes@.len(),
                bytes@ == vstd::utf8::encode_utf8(self@.text),
                buffer@ == old(buffer)@ + bytes@.take(i as int),
            decreases bytes@.len() - i,
        {
            buffer.push(bytes[i]);
            i += 1;
            assert(buffer@ =~= old(buffer)@ + bytes@.take(i as int));
        }
        assert(bytes@.take(bytes@.len() as int) =~= bytes@);
    }
}

} // verus!
