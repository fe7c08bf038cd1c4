use vstd::prelude::*;

verus! {

/// A node of a binary code tree. A leaf holds a byte value in `value`; the left
/// child is reached by a 0 bit and the right child by a 1 bit.
#[derive(Debug)]
pub struct HuffmanNode {
    pub frequency: usize,
    pub value: Option<u8>,
    pub left: Option<Box<HuffmanNode>>,
    pub right: Option<Box<HuffmanNode>>,
}

impl HuffmanNode {
    /// A node without children.
    pub fn new(frequency: usize, value: Option<u8>) -> (node: Self)
        ensures
            node == (HuffmanNode { frequency, value, left: None, right: None }),
    {
        HuffmanNode { frequency, value, left: None, right: None }
    }

    /// The child that `bit` leads to: the right one for a 1, the left one for a 0.
    pub open spec fn child(self, bit: bool) -> Option<HuffmanNode> {
        if bit {
            match self.right {
                Some(node) => Some(*node),
                None => None,
            }
        } else {
            match self.left {
                Some(node) => Some(*node),
                None => None,
            }
        }
    }

    /// The node that `path` leads to from this one, if the tree has it.
    pub open spec fn node_at(self, path: Seq<bool>) -> Option<HuffmanNode>
        decreases path.len(),
    {
        if path.len() == 0 {
            Some(self)
        } else {
            match self.child(path[0]) {
                Some(next) => next.node_at(path.skip(1)),
                None => None,
            }
        }
    }

    /// The byte values at the leaves below this node, each with its leaf's frequency.
    pub open spec fn leaves(self) -> Map<u8, usize>
        decreases self,
    {
        match self.value {
            Some(symbol) => Map::empty().insert(symbol, self.frequency),
            None => {
                let below_left = match self.left {
                    Some(node) => node.leaves(),
                    None => Map::empty(),
                };
                let below_right = match self.right {
                    Some(node) => node.leaves(),
                    None => Map::empty(),
                };
                below_left.union_prefer_right(below_right)
            },
        }
    }

    /// The number of leaves below this node.
    pub open spec fn leaf_count(self) -> nat
        decreases self,
    {
        match self.value {
            Some(_) => 1,
            None => {
                let below_left = match self.left {
                    Some(node) => node.leaf_count(),
                    None => 0,
                };
                let below_right = match self.right {
                    Some(node) => node.leaf_count(),
                    None => 0,
                };
                below_left + below_right
            },
        }
    }

    /// The length of the longest path from this node down to a leaf.
    pub open spec fn height(self) -> nat
        decreases self,
    {
        match self.value {
            Some(_) => 0,
            None => {
                let below_left = match self.left {
                    Some(node) => node.height() + 1,
                    None => 0,
                };
                let below_right = match self.right {
                    Some(node) => node.height() + 1,
                    None => 0,
                };
                if below_left >= below_right { below_left } else { below_right }
            },
        }
    }

    /// A node is either a leaf, with a byte value and no child, or an inner node,
    /// with no value and two children whose frequencies add up to its own; no byte
    /// value stands at two leaves.
    pub open spec fn is_huffman_tree(self) -> bool
        decreases self,
    {
        match self.value {
            Some(_) => self.left is None && self.right is None,
            None => match (self.left, self.right) {
                (Some(l), Some(r)) => {
                    &&& l.is_huffman_tree()
                    &&& r.is_huffman_tree()
                    &&& self.frequency == l.frequency + r.frequency
                    &&& l.leaves().dom().disjoint(r.leaves().dom())
                },
                _ => false,
            },
        }
    }

    /// A Huffman tree has at least one leaf, and more leaves than its height.
    pub proof fn lemma_height_below_leaf_count(self)
        requires
            self.is_huffman_tree(),
        ensures
            self.height() < self.leaf_count(),
        decreases self,
    {
        if self.value is None {
            self.left.unwrap().lemma_height_below_leaf_count();
            self.right.unwrap().lemma_height_below_leaf_count();
        }
    }

    /// A Huffman tree has as many leaves as byte values stand at them.
    pub proof fn lemma_leaf_count(self)
        requires
            self.is_huffman_tree(),
        ensures
            self.leaves().dom().finite(),
            self.leaves().dom().len() == self.leaf_count(),
        decreases self,
    {
        match self.value {
            Some(symbol) => {
                assert(self.leaves().dom() =~= Set::<u8>::empty().insert(symbol));
            },
            None => {
                let left = self.left.unwrap();
                let right = self.right.unwrap();
                left.lemma_leaf_count();
                right.lemma_leaf_count();
                assert(self.leaves().dom() =~= left.leaves().dom() + right.leaves().dom());
                vstd::set_lib::lemma_set_disjoint_lens(left.leaves().dom(), right.leaves().dom());
            },
        }
    }

    /// A Huffman tree has a leaf.
    pub proof fn lemma_has_leaf(self)
        requires
            self.is_huffman_tree(),
        ensures
            exists|symbol: u8| self.leaves().contains_key(symbol),
        decreases self,
    {
        match self.value {
            Some(symbol) => {
                assert(self.leaves().contains_key(symbol));
            },
            None => {
                let right = self.right.unwrap();
                right.lemma_has_leaf();
                let symbol = choose|symbol: u8| right.leaves().contains_key(symbol);
                assert(self.leaves().contains_key(symbol));
            },
        }
    }
}

} // verus!
