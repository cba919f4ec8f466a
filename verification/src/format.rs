//! The wire format: the header, the frequency table in level order, the
//! offset bit and the payload, and how a buffer is taken apart again.

use vstd::prelude::*;
use vstd::seq_lib::{group_to_multiset_ensures, lemma_multiset_commutative};
use crate::bits::{offset_of, packed};
use crate::leaves::{byte_symbols, leaf_sum};
use crate::node::{leaf_record, record_leaf, Leaf, Node};
use crate::utils::{be32, be32_bytes, lemma_be32_of_bytes, lemma_char_range};

verus! {

/// The number of bytes before the frequency table: the height and the
/// table's length.
pub const HEADER_LEN: usize = 8;

/// The leaves of the first `height` levels of a tree, level by level and
/// left to right within a level.
pub open spec fn level_order(tree: Node, height: nat) -> Seq<Leaf>
    decreases height,
{
    if height == 0 {
        Seq::empty()
    } else {
        level_order(tree, (height - 1) as nat) + tree.level(height)
    }
}

/// The frequency table that is written for a tree and a height; no tree
/// gives no table.
pub open spec fn table_of(tree: Option<Node>, height: nat) -> Seq<Leaf> {
    match tree {
        Some(t) => level_order(t, height),
        None => Seq::empty(),
    }
}

/// The records of a table, one after the other.
pub open spec fn records_bytes(records: Seq<Leaf>) -> Seq<u8>
    decreases records.len(),
{
    if records.len() == 0 {
        Seq::empty()
    } else {
        records_bytes(records.drop_last()) + leaf_record(records.last())
    }
}

/// What precedes the offset bit: the height, the length of the table in
/// bytes, and the table.
pub open spec fn preamble(height: u32, records: Seq<Leaf>) -> Seq<u8> {
    be32_bytes(height) + be32_bytes((5 * records.len()) as u32) + records_bytes(records)
}

/// A whole buffer: the preamble, the offset bit of the bits, and the bits,
/// packed.
pub open spec fn wire(height: u32, records: Seq<Leaf>, bits: Seq<bool>) -> Seq<u8> {
    preamble(height, records) + be32_bytes(offset_of(bits)) + packed(bits)
}

/// What a buffer is made of.
pub struct Parsed {
    /// The height field.
    pub height: u32,
    /// The frequency table, in the order of its records.
    pub records: Seq<Leaf>,
    /// The offset bit.
    pub offset: u32,
    /// The bytes after the offset bit.
    pub payload: Seq<u8>,
}

/// The number of five-byte records that are read for a table of the given
/// length in bytes.
pub open spec fn record_count(table_len: nat) -> nat {
    (table_len + 4) / 5
}

/// The first `n` records of a table.
pub open spec fn parsed_records(table: Seq<u8>, n: nat) -> Seq<Leaf>
    decreases n,
{
    if n == 0 {
        Seq::empty()
    } else {
        parsed_records(table, (n - 1) as nat).push(record_leaf(table.subrange(5 * (n - 1), 5 * n as int)))
    }
}

/// Takes a buffer apart. There is nothing to take apart where the buffer
/// is too short for its header, for the records that its table length asks
/// for, or for the offset bit after them, or where the frequencies of the
/// table add up to more than 32 bits hold.
pub open spec fn parse(b: Seq<u8>) -> Option<Parsed> {
    if b.len() < 8 {
        None
    } else {
        let n = record_count(be32(b.subrange(4, 8)) as nat);
        let records = parsed_records(b.skip(8), n);
        if b.len() < 12 + 5 * n || leaf_sum(records) > u32::MAX {
            None
        } else {
            Some(
                Parsed {
                    height: be32(b.subrange(0, 4)) as u32,
                    records,
                    offset: be32(b.subrange(8 + 5 * n as int, 12 + 5 * n as int)) as u32,
                    payload: b.skip(12 + 5 * n as int),
                },
            )
        }
    }
}

/// The records of two tables, one after the other, are the records of the
/// two together.
pub proof fn lemma_records_bytes_concat(a: Seq<Leaf>, b: Seq<Leaf>)
    ensures
        records_bytes(a + b) == records_bytes(a) + records_bytes(b),
        records_bytes(a).len() == 5 * a.len(),
    decreases b.len(),
{
    lemma_records_bytes_len(a);
    if b.len() == 0 {
        assert(a + b =~= a);
        assert(records_bytes(a) + records_bytes(b) =~= records_bytes(a));
    } else {
        lemma_records_bytes_concat(a, b.drop_last());
        assert((a + b).drop_last() =~= a + b.drop_last());
        assert((a + b).last() == b.last());
        assert(records_bytes(a + b) =~= records_bytes(a) + records_bytes(b));
    }
}

/// Each record takes five bytes.
pub proof fn lemma_records_bytes_len(a: Seq<Leaf>)
    ensures
        records_bytes(a).len() == 5 * a.len(),
    decreases a.len(),
{
    if a.len() > 0 {
        lemma_records_bytes_len(a.drop_last());
    }
}

/// The sum of the first records is at most the sum of more of them.
pub proof fn lemma_parsed_records_sum(table: Seq<u8>, k: nat, n: nat)
    requires
        k <= n,
    ensures
        leaf_sum(parsed_records(table, k)) <= leaf_sum(parsed_records(table, n)),
        parsed_records(table, n).len() == n,
    decreases n,
{
    if n > 0 {
        if k < n {
            lemma_parsed_records_sum(table, k, (n - 1) as nat);
        } else {
            lemma_parsed_records_sum(table, (n - 1) as nat, (n - 1) as nat);
        }
        assert(parsed_records(table, n).drop_last() =~= parsed_records(table, (n - 1) as nat));
    }
}

/// A leaf stands on level 1 and on no other.
pub proof fn lemma_level_order_leaf(node: Node, height: nat)
    requires
        node.is_leaf(),
        height >= 1,
    ensures
        level_order(node, height) == seq![node.as_leaf()],
    decreases height,
{
    if height == 1 {
        assert(level_order(node, 0) =~= Seq::<Leaf>::empty());
        assert(level_order(node, 1) =~= seq![node.as_leaf()]);
    } else {
        lemma_level_order_leaf(node, (height - 1) as nat);
        assert(node.level(height) =~= Seq::<Leaf>::empty());
        assert(level_order(node, height) =~= seq![node.as_leaf()]);
    }
}

/// The leaves of the first levels of a node with children are those of one
/// level less of its children.
pub proof fn lemma_level_order_children(node: Node, height: nat)
    requires
        node.left is Some,
        node.right is Some,
        height >= 1,
    ensures
        level_order(node, height).to_multiset() == level_order(
            *node.left->0,
            (height - 1) as nat,
        ).to_multiset().add(level_order(*node.right->0, (height - 1) as nat).to_multiset()),
    decreases height,
{
    broadcast use group_to_multiset_ensures;
    broadcast use lemma_multiset_commutative;

    let l = *node.left->0;
    let r = *node.right->0;
    if height == 1 {
        assert(level_order(node, 0) =~= Seq::<Leaf>::empty());
        assert(node.level(1) =~= Seq::<Leaf>::empty());
        assert(level_order(node, 1) =~= Seq::<Leaf>::empty());
        assert(level_order(l, 0) =~= Seq::<Leaf>::empty());
        assert(level_order(r, 0) =~= Seq::<Leaf>::empty());
        assert(level_order(node, 1).to_multiset() =~= level_order(l, 0).to_multiset().add(
            level_order(r, 0).to_multiset(),
        ));
    } else {
        let h = (height - 1) as nat;
        lemma_level_order_children(node, h);
        assert(node.level(height) == l.level(h) + r.level(h));
        assert(level_order(node, height) == level_order(node, h) + (l.level(h) + r.level(h)));
        assert(level_order(l, h) == level_order(l, (h - 1) as nat) + l.level(h));
        assert(level_order(r, h) == level_order(r, (h - 1) as nat) + r.level(h));
        assert(level_order(node, height).to_multiset() =~= level_order(l, h).to_multiset().add(
            level_order(r, h).to_multiset(),
        ));
    }
}

/// Written out to its height or beyond, a well-formed tree gives each of its
/// leaves once.
pub proof fn lemma_level_order_leaves(node: Node, height: nat)
    requires
        node.well_formed(),
        height >= node.height(),
    ensures
        level_order(node, height).to_multiset() == node.leaves().to_multiset(),
        level_order(node, height).len() == node.leaves().len(),
    decreases node,
{
    broadcast use group_to_multiset_ensures;
    broadcast use lemma_multiset_commutative;

    if node.is_leaf() {
        lemma_level_order_leaf(node, height);
    } else {
        let l = *node.left->0;
        let r = *node.right->0;
        lemma_level_order_children(node, height);
        lemma_level_order_leaves(l, (height - 1) as nat);
        lemma_level_order_leaves(r, (height - 1) as nat);
    }
    assert(level_order(node, height).to_multiset().len() == level_order(node, height).len());
    assert(node.leaves().to_multiset().len() == node.leaves().len());
}

/// The record of a leaf whose symbol fits one byte reads back as the leaf.
pub proof fn lemma_record_of_leaf(leaf: Leaf)
    requires
        (leaf.0 as int) < 256,
    ensures
        leaf_record(leaf).len() == 5,
        record_leaf(leaf_record(leaf)) == leaf,
{
    let b = leaf_record(leaf);
    lemma_char_range(leaf.0);
    lemma_be32_of_bytes(leaf.1);
    assert(b.subrange(1, 5) =~= be32_bytes(leaf.1));
    assert((b[0] as char) == leaf.0);
}

/// The bytes of a table hold the record of each leaf in its place.
pub proof fn lemma_record_at(records: Seq<Leaf>, i: int)
    requires
        0 <= i < records.len(),
    ensures
        records_bytes(records).len() == 5 * records.len(),
        records_bytes(records).subrange(5 * i, 5 * i + 5) == leaf_record(records[i]),
    decreases records.len(),
{
    lemma_records_bytes_len(records);
    lemma_records_bytes_len(records.drop_last());
    let all = records_bytes(records);
    if i == records.len() - 1 {
        assert(all.subrange(5 * i, 5 * i + 5) =~= leaf_record(records[i]));
    } else {
        lemma_record_at(records.drop_last(), i);
        assert(all.subrange(5 * i, 5 * i + 5) =~= records_bytes(records.drop_last()).subrange(
            5 * i,
            5 * i + 5,
        ));
    }
}

/// The records of a table whose symbols fit one byte read back as the
/// table, whatever follows them.
pub proof fn lemma_parsed_records_of(records: Seq<Leaf>, tail: Seq<u8>, k: nat)
    requires
        byte_symbols(records),
        k <= records.len(),
    ensures
        parsed_records(records_bytes(records) + tail, k) == records.take(k as int),
    decreases k,
{
    let table = records_bytes(records) + tail;
    if k == 0 {
        assert(records.take(0) =~= Seq::<Leaf>::empty());
    } else {
        let i = (k - 1) as nat;
        lemma_parsed_records_of(records, tail, i);
        lemma_record_at(records, i as int);
        lemma_record_of_leaf(records[i as int]);
        assert(table.subrange(5 * i as int, 5 * k as int) =~= records_bytes(records).subrange(
            5 * i as int,
            5 * i as int + 5,
        ));
        assert(records.take(k as int) =~= records.take(i as int).push(records[i as int]));
    }
}

/// A buffer that was written is taken apart into what it was written from:
/// the height, the table, the offset bit and the packed bits.
pub proof fn lemma_parse_wire(height: u32, records: Seq<Leaf>, bits: Seq<bool>)
    requires
        byte_symbols(records),
        5 * records.len() <= u32::MAX,
        leaf_sum(records) <= u32::MAX,
    ensures
        parse(wire(height, records, bits)) == Some(
            Parsed { height, records, offset: offset_of(bits), payload: packed(bits) },
        ),
{
    let n = records.len();
    let b = wire(height, records, bits);
    let tail = be32_bytes(offset_of(bits)) + packed(bits);
    lemma_records_bytes_len(records);
    lemma_be32_of_bytes(height);
    lemma_be32_of_bytes((5 * n) as u32);
    lemma_be32_of_bytes(offset_of(bits));
    assert(b.subrange(0, 4) =~= be32_bytes(height));
    assert(b.subrange(4, 8) =~= be32_bytes((5 * n) as u32));
    assert(record_count((5 * n) as nat) == n);
    assert(b.skip(8) =~= records_bytes(records) + tail);
    lemma_parsed_records_of(records, tail, n);
    assert(records.take(n as int) =~= records);
    assert(b.subrange(8 + 5 * n as int, 12 + 5 * n as int) =~= be32_bytes(offset_of(bits)));
    assert(b.skip(12 + 5 * n as int) =~= packed(bits));
}

} // verus!
