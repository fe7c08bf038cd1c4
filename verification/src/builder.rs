use crate::error::CodecError;
use crate::frequency::{total_below, total_count};
use crate::tree::HuffmanNode;
use std::collections::HashMap;
use vstd::prelude::*;

verus! {

broadcast use vstd::std_specs::hash::group_hash_axioms;

/// The leaf for a byte value and its count.
pub open spec fn leaf(frequency: usize, symbol: u8) -> HuffmanNode {
    HuffmanNode { frequency, value: Some(symbol), left: None, right: None }
}

/// The inner node above two trees.
pub open spec fn merged(left: HuffmanNode, right: HuffmanNode) -> HuffmanNode {
    HuffmanNode {
        frequency: (left.frequency + right.frequency) as usize,
        value: None,
        left: Some(Box::new(left)),
        right: Some(Box::new(right)),
    }
}

/// The number of trees at the front of `queue` that weigh `frequency` or less,
/// up to the first that weighs more.
pub open spec fn slot(queue: Seq<HuffmanNode>, frequency: usize) -> nat
    decreases queue.len(),
{
    if queue.len() == 0 || queue[0].frequency > frequency {
        0
    } else {
        1 + slot(queue.skip(1), frequency)
    }
}

/// The queue with `node` put in front of the first tree that is heavier: behind
/// every tree of its own weight that came before it.
pub open spec fn enqueued(queue: Seq<HuffmanNode>, node: HuffmanNode) -> Seq<HuffmanNode> {
    queue.insert(slot(queue, node.frequency) as int, node)
}

/// The queue of leaves for the byte values below `bound` that the table holds.
pub open spec fn leaf_queue(table: Map<u8, usize>, bound: nat) -> Seq<HuffmanNode>
    decreases bound,
{
    if bound == 0 {
        Seq::empty()
    } else {
        let symbol = (bound - 1) as u8;
        let before = leaf_queue(table, (bound - 1) as nat);
        if table.contains_key(symbol) {
            enqueued(before, leaf(table[symbol], symbol))
        } else {
            before
        }
    }
}

/// One step of the construction: the two trees at the front become the left and
/// the right child of a new node, which is put back.
pub open spec fn merge_step(queue: Seq<HuffmanNode>) -> Seq<HuffmanNode> {
    enqueued(queue.skip(2), merged(queue[0], queue[1]))
}

/// The queue after `steps` steps.
pub open spec fn merge_steps(queue: Seq<HuffmanNode>, steps: nat) -> Seq<HuffmanNode>
    decreases steps,
{
    if steps == 0 {
        queue
    } else {
        merge_steps(merge_step(queue), (steps - 1) as nat)
    }
}

/// The Huffman tree of a frequency table. The leaves are queued by ascending
/// count, equal counts by ascending byte value. While more than one tree is
/// queued, the two lightest are merged, the lighter as the left child, and the
/// new tree is queued behind the trees of its own weight.
pub open spec fn huffman_tree(table: Map<u8, usize>) -> HuffmanNode {
    let leaves = leaf_queue(table, 256);
    merge_steps(leaves, (leaves.len() - 1) as nat)[0]
}

/// The leaves of all trees of a forest.
pub open spec fn forest_leaves(forest: Seq<HuffmanNode>) -> Map<u8, usize>
    decreases forest.len(),
{
    if forest.len() == 0 {
        Map::empty()
    } else {
        forest[0].leaves().union_prefer_right(forest_leaves(forest.skip(1)))
    }
}

/// The sum of the root frequencies of a forest.
pub open spec fn forest_weight(forest: Seq<HuffmanNode>) -> nat
    decreases forest.len(),
{
    if forest.len() == 0 {
        0
    } else {
        forest[0].frequency as nat + forest_weight(forest.skip(1))
    }
}

/// The number of leaves of a forest.
pub open spec fn forest_leaf_count(forest: Seq<HuffmanNode>) -> nat
    decreases forest.len(),
{
    if forest.len() == 0 {
        0
    } else {
        forest[0].leaf_count() + forest_leaf_count(forest.skip(1))
    }
}

/// Every tree of the forest is a Huffman tree, and no byte value stands in two.
pub open spec fn is_forest(forest: Seq<HuffmanNode>) -> bool
    decreases forest.len(),
{
    forest.len() == 0 || {
        &&& forest[0].is_huffman_tree()
        &&& forest[0].leaves().dom().disjoint(forest_leaves(forest.skip(1)).dom())
        &&& is_forest(forest.skip(1))
    }
}

/// The entries of a table for the byte values below `bound`.
pub open spec fn entries_below(table: Map<u8, usize>, bound: nat) -> Map<u8, usize> {
    Map::new(|symbol: u8| symbol < bound && table.contains_key(symbol), |symbol: u8| table[symbol])
}

pub(crate) proof fn lemma_slot_bound(queue: Seq<HuffmanNode>, frequency: usize)
    ensures
        slot(queue, frequency) <= queue.len(),
    decreases queue.len(),
{
    if queue.len() > 0 && queue[0].frequency <= frequency {
        lemma_slot_bound(queue.skip(1), frequency);
    }
}

/// The slot is where a scan from the front stops.
proof fn lemma_slot_found(queue: Seq<HuffmanNode>, frequency: usize, k: int)
    requires
        0 <= k <= queue.len(),
        forall|i: int| 0 <= i < k ==> queue[i].frequency <= frequency,
        k == queue.len() || queue[k].frequency > frequency,
    ensures
        slot(queue, frequency) == k,
    decreases k,
{
    if k > 0 {
        let rest = queue.skip(1);
        assert forall|i: int| 0 <= i < k - 1 implies rest[i].frequency <= frequency by {
            assert(rest[i] == queue[i + 1]);
        }
        lemma_slot_found(rest, frequency, k - 1);
    }
}

/// A tree put into a forest at any place adds its leaves, its weight and its
/// leaf count.
proof fn lemma_forest_insert(forest: Seq<HuffmanNode>, k: int, tree: HuffmanNode)
    requires
        0 <= k <= forest.len(),
        is_forest(forest),
        tree.is_huffman_tree(),
        tree.leaves().dom().disjoint(forest_leaves(forest).dom()),
    ensures
        is_forest(forest.insert(k, tree)),
        forest.insert(k, tree).len() == forest.len() + 1,
        forest_leaves(forest.insert(k, tree)) == forest_leaves(forest).union_prefer_right(
            tree.leaves(),
        ),
        forest_weight(forest.insert(k, tree)) == forest_weight(forest) + tree.frequency,
        forest_leaf_count(forest.insert(k, tree)) == forest_leaf_count(forest) + tree.leaf_count(),
    decreases k,
{
    let grown = forest.insert(k, tree);
    if k == 0 {
        assert(grown[0] == tree);
        assert(grown.skip(1) =~= forest);
        assert(forest_leaves(grown) =~= forest_leaves(forest).union_prefer_right(tree.leaves()));
    } else {
        let rest = forest.skip(1);
        assert(grown[0] == forest[0]);
        assert(grown.skip(1) =~= rest.insert(k - 1, tree));
        lemma_forest_insert(rest, k - 1, tree);
        assert(forest_leaves(grown) =~= forest_leaves(forest).union_prefer_right(tree.leaves()));
    }
}

/// A step keeps the forest a forest, with the leaves, the weight and the leaf
/// count it had, and one tree less.
pub(crate) proof fn lemma_merge_step(queue: Seq<HuffmanNode>)
    requires
        queue.len() >= 2,
        is_forest(queue),
        forest_weight(queue) <= usize::MAX,
    ensures
        is_forest(merge_step(queue)),
        merge_step(queue).len() == queue.len() - 1,
        forest_leaves(merge_step(queue)) == forest_leaves(queue),
        forest_weight(merge_step(queue)) == forest_weight(queue),
        forest_leaf_count(merge_step(queue)) == forest_leaf_count(queue),
{
    let first = queue[0];
    let second = queue[1];
    let tail = queue.skip(1);
    let rest = queue.skip(2);
    let node = merged(first, second);
    assert(tail[0] == second);
    assert(tail.skip(1) =~= rest);
    assert(is_forest(tail));
    assert(is_forest(rest));
    assert(forest_leaves(tail) == second.leaves().union_prefer_right(forest_leaves(rest)));
    assert(forest_weight(tail) == second.frequency + forest_weight(rest));
    assert(forest_leaf_count(tail) == second.leaf_count() + forest_leaf_count(rest));
    assert(node.leaves() == first.leaves().union_prefer_right(second.leaves()));
    assert(node.leaf_count() == first.leaf_count() + second.leaf_count());
    assert(node.is_huffman_tree());
    lemma_slot_bound(rest, node.frequency);
    lemma_forest_insert(rest, slot(rest, node.frequency) as int, node);
    assert(forest_leaves(merge_step(queue)) =~= forest_leaves(queue));
}

/// After one step less than there are trees, a single Huffman tree is left, which
/// holds the leaves, the weight and the leaf count of the whole forest.
proof fn lemma_merge_steps(queue: Seq<HuffmanNode>, steps: nat)
    requires
        queue.len() == steps + 1,
        is_forest(queue),
        forest_weight(queue) <= usize::MAX,
    ensures
        merge_steps(queue, steps).len() == 1,
        merge_steps(queue, steps)[0].is_huffman_tree(),
        merge_steps(queue, steps)[0].leaves() == forest_leaves(queue),
        merge_steps(queue, steps)[0].frequency == forest_weight(queue),
        merge_steps(queue, steps)[0].leaf_count() == forest_leaf_count(queue),
    decreases steps,
{
    if steps == 0 {
        assert(queue.skip(1) =~= Seq::<HuffmanNode>::empty());
        assert(forest_weight(queue.skip(1)) == 0);
        assert(forest_leaf_count(queue.skip(1)) == 0);
        assert(forest_leaves(queue) =~= queue[0].leaves());
    } else {
        lemma_merge_step(queue);
        lemma_merge_steps(merge_step(queue), (steps - 1) as nat);
    }
}

/// The queue of leaves is a forest whose leaves are the table's entries.
pub(crate) proof fn lemma_leaf_queue(table: Map<u8, usize>, bound: nat)
    requires
        bound <= 256,
    ensures
        is_forest(leaf_queue(table, bound)),
        forest_leaves(leaf_queue(table, bound)) == entries_below(table, bound),
        forest_weight(leaf_queue(table, bound)) == total_below(table, bound),
        forest_leaf_count(leaf_queue(table, bound)) == leaf_queue(table, bound).len(),
        leaf_queue(table, bound).len() <= bound,
        leaf_queue(table, bound).len() > 0 <==> exists|symbol: u8|
            symbol < bound && table.contains_key(symbol),
    decreases bound,
{
    if bound == 0 {
        assert(forest_leaves(leaf_queue(table, bound)) =~= entries_below(table, bound));
    } else {
        let symbol = (bound - 1) as u8;
        let before = leaf_queue(table, (bound - 1) as nat);
        lemma_leaf_queue(table, (bound - 1) as nat);
        if table.contains_key(symbol) {
            let node = leaf(table[symbol], symbol);
            lemma_slot_bound(before, node.frequency);
            lemma_forest_insert(before, slot(before, node.frequency) as int, node);
            assert(symbol < bound && table.contains_key(symbol));
        } else {
            if exists|other: u8| other < bound && table.contains_key(other) {
                let other = choose|other: u8| other < bound && table.contains_key(other);
                assert(other < bound - 1 && table.contains_key(other));
            }
        }
        assert(forest_leaves(leaf_queue(table, bound)) =~= entries_below(table, bound));
    }
}

/// The Huffman tree of a table with at least one entry is a full binary tree
/// with one leaf for each entry, which holds the entry's count, and with the sum
/// of all counts at its root.
pub proof fn lemma_huffman_tree(table: Map<u8, usize>)
    requires
        exists|symbol: u8| table.contains_key(symbol),
        total_count(table) <= usize::MAX,
    ensures
        huffman_tree(table).is_huffman_tree(),
        huffman_tree(table).leaves() == table,
        huffman_tree(table).frequency == total_count(table),
        huffman_tree(table).leaf_count() == table.dom().len(),
        huffman_tree(table).leaf_count() <= 256,
        huffman_tree(table).height() < 256,
{
    let leaves = leaf_queue(table, 256);
    lemma_leaf_queue(table, 256);
    assert(entries_below(table, 256) =~= table);
    let symbol = choose|symbol: u8| table.contains_key(symbol);
    assert(symbol < 256 && table.contains_key(symbol));
    lemma_merge_steps(leaves, (leaves.len() - 1) as nat);
    huffman_tree(table).lemma_height_below_leaf_count();
    huffman_tree(table).lemma_leaf_count();
}

/// Puts `node` into the queue in front of the first tree that is heavier.
fn enqueue(queue: &mut Vec<HuffmanNode>, node: HuffmanNode)
    ensures
        final(queue)@ == enqueued(old(queue)@, node),
{
    let mut k: usize = 0;
    while k < queue.len() && queue[k].frequency <= node.frequency
        invariant
            k <= queue.len(),
            forall|i: int| 0 <= i < k ==> queue@[i].frequency <= node.frequency,
        decreases queue.len() - k,
    {
        k = k + 1;
    }
    proof {
        lemma_slot_found(queue@, node.frequency, k as int);
    }
    queue.insert(k, node);
}

/// Builds the Huffman tree of a frequency table.
///
/// Trees of equal weight leave the queue in the order in which they entered it,
/// leaves by ascending byte value. A table without entries is refused.
pub fn build_huffman_tree(frequencies: &HashMap<u8, usize>) -> (result: Result<
    HuffmanNode,
    CodecError,
>)
    requires
        total_count(frequencies@) <= usize::MAX,
    ensures
        match result {
            Ok(tree) => {
                &&& exists|symbol: u8| frequencies@.contains_key(symbol)
                &&& tree == huffman_tree(frequencies@)
                &&& tree.is_huffman_tree()
                &&& tree.leaves() == frequencies@
                &&& tree.leaf_count() == frequencies@.len()
                &&& tree.frequency == total_count(frequencies@)
            },
            Err(e) => {
                &&& e == CodecError::EmptyInput
                &&& forall|symbol: u8| !frequencies@.contains_key(symbol)
            },
        },
{
    let mut queue: Vec<HuffmanNode> = Vec::new();
    let mut symbol: usize = 0;
    while symbol < 256
        invariant
            symbol <= 256,
            queue@ == leaf_queue(frequencies@, symbol as nat),
        decreases 256 - symbol,
    {
        let byte: u8 = symbol as u8;
        match frequencies.get(&byte) {
            Some(frequency) => {
                enqueue(&mut queue, HuffmanNode::new(*frequency, Some(byte)));
            },
            None => {},
        }
        symbol = symbol + 1;
    }
    let ghost leaves = queue@;
    proof {
        lemma_leaf_queue(frequencies@, 256);
    }
    if queue.len() == 0 {
        return Err(CodecError::EmptyInput);
    }
    while queue.len() > 1
        invariant
            queue@.len() >= 1,
            is_forest(queue@),
            forest_weight(queue@) <= usize::MAX,
            merge_steps(queue@, (queue@.len() - 1) as nat) == merge_steps(
                leaves,
                (leaves.len() - 1) as nat,
            ),
        decreases queue.len(),
    {
        let ghost before = queue@;
        let left = queue.remove(0);
        let right = queue.remove(0);
        proof {
            assert(queue@ =~= before.skip(2));
            assert(before.skip(1)[0] == right);
            assert(forest_weight(before) == left.frequency + forest_weight(before.skip(1)));
            assert(forest_weight(before.skip(1)) == right.frequency + forest_weight(
                before.skip(1).skip(1),
            ));
            lemma_merge_step(before);
        }
        let mut combined = HuffmanNode::new(left.frequency + right.frequency, None);
        combined.left = Some(Box::new(left));
        combined.right = Some(Box::new(right));
        enqueue(&mut queue, combined);
    }
    proof {
        lemma_huffman_tree(frequencies@);
    }
    Ok(queue.remove(0))
}

} // verus!
