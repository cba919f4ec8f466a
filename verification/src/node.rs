//! Tree and heap elements.

use vstd::prelude::*;
use vstd::slice::slice_subrange;
use crate::error::Error;
use crate::huffman::TravRes;
use crate::utils::{be32, be32_bytes, read_u32, write_u32};

verus! {

/// The symbol that internal nodes carry; it is never looked up.
pub const NO_SYMBOL: char = '\0';

/// The number of bytes in the flat form of a leaf.
pub const NODE_BYTES_LEN: usize = 5;

/// A leaf as it is counted and stored: its symbol and its frequency.
pub type Leaf = (char, u32);

/// A tree element: a symbol, its frequency, and the subtrees it owns.
#[derive(Debug)]
pub struct Node {
    pub ch: char,
    pub freq: u32,
    pub left: Option<Box<Node>>,
    pub right: Option<Box<Node>>,
}

/// The byte that stands for a symbol on the wire: its code point modulo 256.
pub open spec fn symbol_byte(ch: char) -> u8 {
    ((ch as u32) % 256) as u8
}

/// The five bytes of a leaf record: the symbol, then the frequency, big-endian.
pub open spec fn leaf_record(leaf: Leaf) -> Seq<u8> {
    seq![symbol_byte(leaf.0)] + be32_bytes(leaf.1)
}

/// The leaf that a record of at least five bytes stands for.
pub open spec fn record_leaf(b: Seq<u8>) -> Leaf
    recommends
        b.len() >= 5,
{
    (b[0] as char, be32(b.subrange(1, 5)) as u32)
}

impl Clone for Node {
    /// A copy of the node and of everything below it.
    fn clone(&self) -> (res: Node)
        ensures
            res == *self,
        decreases self,
    {
        Node {
            ch: self.ch,
            freq: self.freq,
            left: (match &self.left {
                Some(node) => Some(Box::new((&**node).clone())),
                None => None,
            }),
            right: (match &self.right {
                Some(node) => Some(Box::new((&**node).clone())),
                None => None,
            }),
        }
    }
}

impl Node {
    /// A node without children.
    pub open spec fn leaf(ch: char, freq: u32) -> Node {
        Node { ch, freq, left: None, right: None }
    }

    /// An internal node over two subtrees, with the given frequency.
    pub open spec fn join(freq: u32, left: Node, right: Node) -> Node {
        Node { ch: NO_SYMBOL, freq, left: Some(Box::new(left)), right: Some(Box::new(right)) }
    }

    /// Whether the node has no children.
    pub open spec fn is_leaf(&self) -> bool {
        self.left is None && self.right is None
    }

    /// The node's symbol and frequency.
    pub open spec fn as_leaf(&self) -> Leaf {
        (self.ch, self.freq)
    }

    /// Every node below and including this one is a leaf or has both children,
    /// and the frequency of a node with children is the sum of theirs.
    pub open spec fn well_formed(&self) -> bool
        decreases self,
    {
        self.is_leaf() || (self.left is Some && self.right is Some && {
            let l = self.left->0;
            let r = self.right->0;
            &&& l.well_formed()
            &&& r.well_formed()
            &&& self.freq == l.freq + r.freq
        })
    }

    /// The leaves below this node, left to right.
    pub open spec fn leaves(&self) -> Seq<Leaf>
        decreases self,
    {
        if self.left is Some && self.right is Some {
            self.left->0.leaves() + self.right->0.leaves()
        } else {
            seq![self.as_leaf()]
        }
    }

    /// The number of levels below and including this node; a leaf has one.
    pub open spec fn height(&self) -> nat
        decreases self,
    {
        if self.left is Some && self.right is Some {
            let l = self.left->0.height();
            let r = self.right->0.height();
            1 + if l >= r { l } else { r }
        } else {
            1
        }
    }

    /// The leaves that stand exactly `level` levels down, left to right; this
    /// node itself is at level 1.
    pub open spec fn level(&self, level: nat) -> Seq<Leaf>
        decreases self,
    {
        if level == 0 {
            Seq::empty()
        } else if level == 1 {
            if self.is_leaf() { seq![self.as_leaf()] } else { Seq::empty() }
        } else {
            (match self.left {
                Some(l) => l.level((level - 1) as nat),
                None => Seq::empty(),
            }) + (match self.right {
                Some(r) => r.level((level - 1) as nat),
                None => Seq::empty(),
            })
        }
    }

    /// The sum, over the leaves below this node, of the frequency times
    /// the number of steps from the top to the leaf, where this node stands
    /// `depth` steps below the top.
    pub open spec fn weighted_depth(&self, depth: nat) -> nat
        decreases self,
    {
        if self.left is Some && self.right is Some {
            self.left->0.weighted_depth(depth + 1) + self.right->0.weighted_depth(depth + 1)
        } else {
            self.freq as nat * depth
        }
    }

    /// The weighted path length of the tree below this node: what its
    /// leaves pay in bits, each its frequency times the length of its path.
    pub open spec fn cost(&self) -> nat {
        self.weighted_depth(0)
    }

    /// Makes a node without children.
    pub fn new_node(ch: char, freq: u32) -> (node: Node)
        ensures
            node == Node::leaf(ch, freq),
    {
        Node { ch, freq, left: None, right: None }
    }

    /// Reads a leaf from the first five bytes of `data`: the symbol, then the
    /// big-endian frequency. Fewer than five bytes are a conversion error.
    pub fn from_flat(data: &[u8]) -> (r: Result<Node, Error>)
        ensures
            data@.len() >= 5 ==> r is Ok && r->Ok_0 == Node::leaf(record_leaf(data@).0, record_leaf(data@).1),
            data@.len() < 5 ==> r is Err && r->Err_0 is Conversion,
    {
        if data.len() < NODE_BYTES_LEN {
            return Err(
                Error::Conversion(
                    "expected at least 5 bytes".to_owned(),
                    "leaf record is truncated".to_owned(),
                ),
            );
        }
        let ch = data[0] as char;
        match read_u32(slice_subrange(data, 1, 5)) {
            Ok(freq) => Ok(Node::new_node(ch, freq)),
            Err(e) => Err(e),
        }
    }

    /// Whether the node has no children.
    pub fn is_leave(&self) -> (b: bool)
        ensures
            b == self.is_leaf(),
    {
        self.left.is_none() && self.right.is_none()
    }

    /// The flat form of a leaf, `None` for a node with a child.
    pub fn flat(&self) -> (r: Option<Vec<u8>>)
        ensures
            self.is_leaf() ==> r is Some && r->0@ == leaf_record(self.as_leaf()),
            !self.is_leaf() ==> r is None,
    {
        if self.is_leave() {
            let mut buf: Vec<u8> = Vec::with_capacity(NODE_BYTES_LEN);
            buf.push(((self.ch as u32) % 256) as u8);
            write_u32(&mut buf, self.freq);
            Some(buf)
        } else {
            None
        }
    }

    /// One step of a traversal. A leaf yields its symbol whatever the
    /// direction; otherwise direction 0 yields the left child and 1 the right.
    /// Any other direction, or a missing child, is a traversal error.
    pub fn next(&self, dir: u8) -> (r: Result<TravRes<'_>, Error>)
        ensures
            self.is_leaf() ==> r == Ok::<TravRes, Error>(TravRes::Char(self.ch)),
            !self.is_leaf() && dir == 0 && self.left is Some ==> r == Ok::<TravRes, Error>(
                TravRes::Node(&self.left->0),
            ),
            !self.is_leaf() && dir == 1 && self.right is Some ==> r == Ok::<TravRes, Error>(
                TravRes::Node(&self.right->0),
            ),
            !self.is_leaf() && !(dir == 0 && self.left is Some) && !(dir == 1 && self.right is Some)
                ==> r is Err && r->Err_0 is Heapify,
    {
        if self.is_leave() {
            return Ok(TravRes::Char(self.ch));
        }
        if dir == 0 {
            if let Some(left) = &self.left {
                return Ok(TravRes::Node(left));
            }
        }
        if dir == 1 {
            if let Some(right) = &self.right {
                return Ok(TravRes::Node(right));
            }
        }
        Err(
            Error::Heapify(
                "node is no leaf and the direction is not 0 or 1, or the child is missing".to_owned(),
                String::new(),
            ),
        )
    }
}

} // verus!
