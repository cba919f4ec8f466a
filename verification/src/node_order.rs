//! Comparison of nodes: the frequency is the only key.

use vstd::prelude::*;
use core::cmp::Ordering;
use crate::node::Node;

verus! {

impl PartialEq for Node {
    /// Two nodes are equal when their frequencies are.
    fn eq(&self, other: &Node) -> (r: bool) {
        self.freq == other.freq
    }
}

impl vstd::std_specs::cmp::PartialEqSpecImpl for Node {
    open spec fn obeys_eq_spec() -> bool {
        true
    }

    open spec fn eq_spec(&self, other: &Node) -> bool {
        self.freq == other.freq
    }
}

impl Eq for Node {

}

impl PartialOrd for Node {
    /// Nodes are ordered by frequency.
    fn partial_cmp(&self, other: &Node) -> (r: Option<Ordering>) {
        if self.freq < other.freq {
            Some(Ordering::Less)
        } else if self.freq > other.freq {
            Some(Ordering::Greater)
        } else {
            Some(Ordering::Equal)
        }
    }
}

impl vstd::std_specs::cmp::PartialOrdSpecImpl for Node {
    open spec fn obeys_partial_cmp_spec() -> bool {
        true
    }

    open spec fn partial_cmp_spec(&self, other: &Node) -> Option<Ordering> {
        if self.freq < other.freq {
            Some(Ordering::Less)
        } else if self.freq > other.freq {
            Some(Ordering::Greater)
        } else {
            Some(Ordering::Equal)
        }
    }
}

} // verus!
