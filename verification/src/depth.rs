use crate::builder::{
    enqueued, forest_leaves, forest_weight, huffman_tree, is_forest, leaf, leaf_queue,
    lemma_huffman_tree, lemma_leaf_queue, lemma_merge_step, lemma_slot_bound, merge_step,
    merge_steps, merged, slot,
};
use crate::codes::{code_table, codes_below, lemma_codes_below};
use crate::frequency::total_count;
use crate::tree::HuffmanNode;
use vstd::prelude::*;

verus! {

/// The number of steps from `node` down to the leaf of `symbol`.
pub open spec fn leaf_depth(node: HuffmanNode, symbol: u8) -> nat
    decreases node,
{
    match node.value {
        Some(_) => 0,
        None => {
            let below_left = match node.left {
                Some(child) => 1 + leaf_depth(*child, symbol),
                None => 0,
            };
            match node.right {
                Some(child) => if child.leaves().contains_key(symbol) {
                    1 + leaf_depth(*child, symbol)
                } else {
                    below_left
                },
                None => below_left,
            }
        },
    }
}

/// The trees of the queue stand in ascending order of their frequencies.
pub open spec fn is_sorted(queue: Seq<HuffmanNode>) -> bool {
    forall|i: int, j: int|
        0 <= i <= j < queue.len() ==> (#[trigger] queue[i]).frequency <= (#[trigger] queue[j]).frequency
}

/// No inner node of the queue is heavier than the two trees at the front together.
pub open spec fn is_settled(queue: Seq<HuffmanNode>) -> bool {
    queue.len() >= 2 ==> forall|m: int|
        0 <= m < queue.len() && (#[trigger] queue[m]).value is None ==> queue[m].frequency
            <= queue[0].frequency + queue[1].frequency
}

/// Where the node that a step makes is put in the rest of the queue.
pub open spec fn merge_slot(queue: Seq<HuffmanNode>) -> int {
    slot(queue.skip(2), merged(queue[0], queue[1]).frequency) as int
}

/// Where the tree at `index` stands after a step; for the two trees at the
/// front, where the node above them stands.
pub open spec fn moved(queue: Seq<HuffmanNode>, index: int) -> int {
    if index < 2 {
        merge_slot(queue)
    } else if index - 2 < merge_slot(queue) {
        index - 2
    } else {
        index - 1
    }
}

/// The depth at which the root of the tree at `index` stands in the tree that
/// is left after `steps` steps.
pub open spec fn root_depth(queue: Seq<HuffmanNode>, index: int, steps: nat) -> nat
    decreases steps,
{
    if steps == 0 {
        0
    } else {
        let below: nat = if index < 2 { 1 } else { 0 };
        below + root_depth(merge_step(queue), moved(queue, index), (steps - 1) as nat)
    }
}

/// The length of a code is the length of the path to the node it was read
/// below, and the depth of its leaf below that node.
pub proof fn lemma_code_length(node: HuffmanNode, path: Seq<bool>, symbol: u8)
    requires
        node.leaves().contains_key(symbol),
        node.value is None || path.len() > 0,
    ensures
        codes_below(node, path).contains_key(symbol),
        codes_below(node, path)[symbol].len() == path.len() + leaf_depth(node, symbol),
    decreases node,
{
    lemma_codes_below(node, path);
    if node.value is None {
        let in_right = match node.right {
            Some(child) => child.leaves().contains_key(symbol),
            None => false,
        };
        if in_right {
            let child = *node.right.unwrap();
            lemma_codes_below(child, path.push(true));
            lemma_code_length(child, path.push(true), symbol);
        } else {
            let child = *node.left.unwrap();
            if let Some(other) = node.right {
                lemma_codes_below(*other, path.push(true));
            }
            lemma_codes_below(child, path.push(false));
            lemma_code_length(child, path.push(false), symbol);
        }
    }
}

/// In a sorted queue the trees in front of the slot weigh `frequency` or less,
/// and the trees from the slot on weigh more.
proof fn lemma_slot_split(queue: Seq<HuffmanNode>, frequency: usize)
    requires
        is_sorted(queue),
    ensures
        0 <= slot(queue, frequency) <= queue.len(),
        forall|r: int|
            0 <= r < slot(queue, frequency) ==> (#[trigger] queue[r]).frequency <= frequency,
        forall|r: int|
            slot(queue, frequency) <= r < queue.len() ==> (#[trigger] queue[r]).frequency
                > frequency,
    decreases queue.len(),
{
    if queue.len() > 0 && queue[0].frequency <= frequency {
        let rest = queue.skip(1);
        assert(is_sorted(rest)) by {
            assert forall|i: int, j: int| 0 <= i <= j < rest.len() implies (#[trigger] rest[i]).frequency
                <= (#[trigger] rest[j]).frequency by {
                assert(rest[i] == queue[i + 1] && rest[j] == queue[j + 1]);
            }
        }
        lemma_slot_split(rest, frequency);
        assert forall|r: int| 0 <= r < slot(queue, frequency) implies (#[trigger] queue[r]).frequency
            <= frequency by {
            if r > 0 {
                assert(queue[r] == rest[r - 1]);
            }
        }
        assert forall|r: int| slot(queue, frequency) <= r < queue.len() implies (
        #[trigger] queue[r]).frequency > frequency by {
            assert(queue[r] == rest[r - 1]);
        }
    } else if queue.len() > 0 {
        assert forall|r: int| 0 <= r < queue.len() implies (#[trigger] queue[r]).frequency
            > frequency by {
            assert(queue[0].frequency <= queue[r].frequency);
        }
    }
}

/// A tree put into a sorted queue at its slot leaves the queue sorted.
proof fn lemma_enqueued_sorted(queue: Seq<HuffmanNode>, node: HuffmanNode)
    requires
        is_sorted(queue),
    ensures
        is_sorted(enqueued(queue, node)),
        enqueued(queue, node).len() == queue.len() + 1,
        enqueued(queue, node)[slot(queue, node.frequency) as int] == node,
        forall|r: int|
            0 <= r < slot(queue, node.frequency) ==> #[trigger] enqueued(queue, node)[r]
                == queue[r],
        forall|r: int|
            slot(queue, node.frequency) <= r < queue.len() ==> #[trigger] enqueued(queue, node)[r
                + 1] == queue[r],
{
    let s = slot(queue, node.frequency) as int;
    let grown = enqueued(queue, node);
    lemma_slot_split(queue, node.frequency);
    queue.insert_ensures(s, node);
    assert forall|r: int| s <= r < queue.len() implies #[trigger] grown[r + 1] == queue[r] by {}
    assert forall|i: int, j: int| 0 <= i <= j < grown.len() implies (#[trigger] grown[i]).frequency
        <= (#[trigger] grown[j]).frequency by {
        if i < s {
            assert(grown[i] == queue[i]);
            if j > s {
                assert(grown[j] == queue[j - 1]);
            } else if j < s {
                assert(grown[j] == queue[j]);
            }
        } else if i == s {
            if j > s {
                assert(grown[j] == queue[j - 1]);
            }
        } else {
            assert(grown[i] == queue[i - 1]);
            assert(grown[j] == queue[j - 1]);
        }
    }
}

/// What a step does to a sorted and settled queue.
proof fn lemma_step_shape(queue: Seq<HuffmanNode>)
    requires
        queue.len() >= 2,
        is_forest(queue),
        forest_weight(queue) <= usize::MAX,
        is_sorted(queue),
        is_settled(queue),
    ensures
        merge_step(queue).len() == queue.len() - 1,
        is_forest(merge_step(queue)),
        forest_weight(merge_step(queue)) <= usize::MAX,
        is_sorted(merge_step(queue)),
        is_settled(merge_step(queue)),
        0 <= merge_slot(queue) <= queue.len() - 2,
        merge_step(queue)[merge_slot(queue)] == merged(queue[0], queue[1]),
        forall|i: int|
            2 <= i < queue.len() ==> 0 <= moved(queue, i) < queue.len() - 1 && moved(queue, i)
                != merge_slot(queue) && merge_step(queue)[moved(queue, i)] == #[trigger] queue[i],
        forall|m: int|
            2 <= m < queue.len() && (#[trigger] queue[m]).value is None ==> moved(queue, m)
                < merge_slot(queue),
{
    let rest = queue.skip(2);
    let node = merged(queue[0], queue[1]);
    let s = merge_slot(queue);
    let next = merge_step(queue);
    lemma_merge_step(queue);
    assert(forest_weight(queue) == queue[0].frequency + forest_weight(queue.skip(1)));
    assert(forest_weight(queue.skip(1)) == queue.skip(1)[0].frequency + forest_weight(
        queue.skip(1).skip(1),
    ));
    assert(queue.skip(1)[0] == queue[1]);
    assert(node.frequency == queue[0].frequency + queue[1].frequency);
    assert(is_sorted(rest)) by {
        assert forall|i: int, j: int| 0 <= i <= j < rest.len() implies (#[trigger] rest[i]).frequency
            <= (#[trigger] rest[j]).frequency by {
            assert(rest[i] == queue[i + 2] && rest[j] == queue[j + 2]);
        }
    }
    lemma_slot_split(rest, node.frequency);
    lemma_enqueued_sorted(rest, node);
    assert forall|i: int| 2 <= i < queue.len() implies 0 <= moved(queue, i) < queue.len() - 1
        && moved(queue, i) != s && next[moved(queue, i)] == #[trigger] queue[i] by {
        assert(rest[i - 2] == queue[i]);
        if i - 2 < s {
            assert(next[i - 2] == rest[i - 2]);
        } else {
            assert(next[(i - 2) + 1] == rest[i - 2]);
        }
    }
    assert forall|m: int| 2 <= m < queue.len() && (#[trigger] queue[m]).value is None implies moved(
        queue,
        m,
    ) < s by {
        assert(rest[m - 2] == queue[m]);
        assert(queue[m].frequency <= node.frequency);
    }
    if next.len() >= 2 {
        // every tree of the rest weighs as much as the second of the two that were merged
        assert forall|k: int| 0 <= k < next.len() && k != s implies (#[trigger] next[k]).frequency
            >= queue[1].frequency by {
            if k < s {
                assert(next[k] == rest[k]);
                assert(rest[k] == queue[k + 2]);
                assert(queue[1].frequency <= queue[k + 2].frequency);
            } else {
                assert(next[(k - 1) + 1] == rest[k - 1]);
                assert(rest[k - 1] == queue[k + 1]);
                assert(queue[1].frequency <= queue[k + 1].frequency);
            }
        }
        assert(queue[0].frequency <= queue[1].frequency);
        assert(next[0].frequency + next[1].frequency >= node.frequency);
        assert forall|m: int| 0 <= m < next.len() && (#[trigger] next[m]).value is None implies next[m].frequency
            <= next[0].frequency + next[1].frequency by {
            if m < s {
                assert(next[m] == rest[m]);
                assert(rest[m] == queue[m + 2]);
            } else if m > s {
                assert(next[(m - 1) + 1] == rest[m - 1]);
                assert(rest[m - 1] == queue[m + 1]);
            }
        }
    }
}

/// In a sorted and settled queue, a tree that stands further back ends no
/// deeper, and a tree in front of an inner node ends at most one level deeper
/// than that node.
proof fn lemma_root_depth(queue: Seq<HuffmanNode>, steps: nat)
    requires
        queue.len() == steps + 1,
        is_forest(queue),
        forest_weight(queue) <= usize::MAX,
        is_sorted(queue),
        is_settled(queue),
    ensures
        forall|i: int, j: int|
            0 <= i <= j < queue.len() ==> #[trigger] root_depth(queue, i, steps) >= #[trigger] root_depth(
                queue,
                j,
                steps,
            ),
        forall|i: int, m: int|
            0 <= i < m < queue.len() && queue[m].value is None ==> #[trigger] root_depth(
                queue,
                i,
                steps,
            ) <= #[trigger] root_depth(queue, m, steps) + 1,
    decreases steps,
{
    if steps > 0 {
        let next = merge_step(queue);
        let s = merge_slot(queue);
        let less = (steps - 1) as nat;
        lemma_step_shape(queue);
        lemma_root_depth(next, less);
        assert(next[s].value is None);
        assert forall|i: int, j: int| 0 <= i <= j < queue.len() implies #[trigger] root_depth(
            queue,
            i,
            steps,
        ) >= #[trigger] root_depth(queue, j, steps) by {
            let to_i = moved(queue, i);
            let to_j = moved(queue, j);
            if i >= 2 {
                assert(to_i <= to_j);
                assert(root_depth(next, to_i, less) >= root_depth(next, to_j, less));
            } else if j >= 2 {
                if to_j > s {
                    assert(root_depth(next, s, less) >= root_depth(next, to_j, less));
                } else {
                    assert(root_depth(next, to_j, less) <= root_depth(next, s, less) + 1);
                }
            }
        }
        assert forall|i: int, m: int|
            0 <= i < m < queue.len() && queue[m].value is None implies #[trigger] root_depth(
            queue,
            i,
            steps,
        ) <= #[trigger] root_depth(queue, m, steps) + 1 by {
            let to_i = moved(queue, i);
            let to_m = moved(queue, m);
            if i >= 2 {
                assert(to_i < to_m);
                assert(next[to_m].value is None);
                assert(root_depth(next, to_i, less) <= root_depth(next, to_m, less) + 1);
            } else if m >= 2 {
                assert(to_m < s);
                assert(root_depth(next, to_m, less) >= root_depth(next, s, less));
            }
        }
    }
}

/// The depth of a leaf in the tree that is left after the last step is its
/// depth in its tree of the queue and the depth at which that tree's root ends.
proof fn lemma_leaf_depth(queue: Seq<HuffmanNode>, steps: nat, index: int, symbol: u8)
    requires
        queue.len() == steps + 1,
        is_forest(queue),
        forest_weight(queue) <= usize::MAX,
        is_sorted(queue),
        is_settled(queue),
        0 <= index < queue.len(),
        queue[index].leaves().contains_key(symbol),
    ensures
        leaf_depth(merge_steps(queue, steps)[0], symbol) == leaf_depth(queue[index], symbol)
            + root_depth(queue, index, steps),
    decreases steps,
{
    if steps > 0 {
        let next = merge_step(queue);
        let s = merge_slot(queue);
        let node = merged(queue[0], queue[1]);
        lemma_step_shape(queue);
        if index >= 2 {
            lemma_leaf_depth(next, (steps - 1) as nat, moved(queue, index), symbol);
        } else {
            assert(is_forest(queue.skip(1)));
            assert(queue.skip(1)[0] == queue[1]);
            assert(forest_leaves(queue.skip(1)).dom().contains(symbol) ==> !queue[0].leaves().dom().contains(
                symbol,
            ));
            assert(queue[1].leaves().contains_key(symbol) ==> forest_leaves(
                queue.skip(1),
            ).contains_key(symbol));
            assert(node.leaves().contains_key(symbol));
            assert(leaf_depth(node, symbol) == 1 + leaf_depth(queue[index], symbol));
            lemma_leaf_depth(next, (steps - 1) as nat, s, symbol);
        }
    }
}

/// The queue of leaves is sorted and made of leaves, one for each entry.
proof fn lemma_leaf_queue_sorted(table: Map<u8, usize>, bound: nat)
    requires
        bound <= 256,
    ensures
        is_sorted(leaf_queue(table, bound)),
        forall|i: int|
            0 <= i < leaf_queue(table, bound).len() ==> (#[trigger] leaf_queue(
                table,
                bound,
            )[i]).value is Some,
        forall|symbol: u8|
            symbol < bound && table.contains_key(symbol) ==> exists|i: int|
                0 <= i < leaf_queue(table, bound).len() && #[trigger] leaf_queue(table, bound)[i]
                    == leaf(table[symbol], symbol),
    decreases bound,
{
    if bound > 0 {
        let symbol = (bound - 1) as u8;
        let before = leaf_queue(table, (bound - 1) as nat);
        let queue = leaf_queue(table, bound);
        lemma_leaf_queue_sorted(table, (bound - 1) as nat);
        if table.contains_key(symbol) {
            let node = leaf(table[symbol], symbol);
            let s = slot(before, node.frequency) as int;
            lemma_enqueued_sorted(before, node);
            lemma_slot_bound(before, node.frequency);
            assert(queue == enqueued(before, node));
            assert forall|i: int| 0 <= i < queue.len() implies (#[trigger] queue[i]).value is Some by {
                if i < s {
                    assert(queue[i] == before[i]);
                } else if i > s {
                    assert(queue[(i - 1) + 1] == before[i - 1]);
                }
            }
            assert forall|other: u8| other < bound && table.contains_key(other) implies exists|
                i: int,
            |
                0 <= i < queue.len() && #[trigger] queue[i] == leaf(table[other], other) by {
                if other == symbol {
                    assert(queue[s] == leaf(table[other], other));
                } else {
                    let i = choose|i: int|
                        0 <= i < before.len() && #[trigger] before[i] == leaf(table[other], other);
                    if i < s {
                        assert(queue[i] == before[i]);
                    } else {
                        assert(queue[i + 1] == before[i]);
                    }
                }
            }
        } else {
            assert(queue == before);
            assert forall|other: u8| other < bound && table.contains_key(other) implies exists|
                i: int,
            |
                0 <= i < queue.len() && #[trigger] queue[i] == leaf(table[other], other) by {
                assert(other < bound - 1);
            }
        }
    }
}

/// In the code table of a Huffman tree, a byte value that is counted more often
/// than another has a code that is no longer.
pub proof fn lemma_frequent_symbols_have_short_codes(table: Map<u8, usize>, a: u8, b: u8)
    requires
        total_count(table) <= usize::MAX,
        table.contains_key(a),
        table.contains_key(b),
        table[a] > table[b],
    ensures
        code_table(huffman_tree(table)).contains_key(a),
        code_table(huffman_tree(table)).contains_key(b),
        code_table(huffman_tree(table))[a].len() <= code_table(huffman_tree(table))[b].len(),
{
    let queue = leaf_queue(table, 256);
    lemma_leaf_queue(table, 256);
    lemma_leaf_queue_sorted(table, 256);
    let ia = choose|i: int| 0 <= i < queue.len() && #[trigger] queue[i] == leaf(table[a], a);
    let ib = choose|i: int| 0 <= i < queue.len() && #[trigger] queue[i] == leaf(table[b], b);
    let steps = (queue.len() - 1) as nat;
    let tree = huffman_tree(table);
    assert(is_settled(queue));
    if ia <= ib {
        assert(queue[ia].frequency <= queue[ib].frequency);
    }
    lemma_root_depth(queue, steps);
    assert(root_depth(queue, ib, steps) >= root_depth(queue, ia, steps));
    assert(queue[ia].leaves().contains_key(a));
    assert(queue[ib].leaves().contains_key(b));
    lemma_leaf_depth(queue, steps, ia, a);
    lemma_leaf_depth(queue, steps, ib, b);
    lemma_huffman_tree(table);
    if tree.value is Some {
        assert(tree.leaves().dom().contains(a) && tree.leaves().dom().contains(b));
    }
    lemma_code_length(tree, Seq::empty(), a);
    lemma_code_length(tree, Seq::empty(), b);
}

} // verus!
