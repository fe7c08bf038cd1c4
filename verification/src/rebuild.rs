use crate::codes::{code_map, codes_under, is_decodable};
use crate::error::CodecError;
use crate::tree::HuffmanNode;
use std::collections::HashMap;
use vstd::prelude::*;

verus! {

broadcast use vstd::std_specs::hash::group_hash_axioms;

/// An inner node without children and with the frequency zero.
pub open spec fn bare() -> HuffmanNode {
    HuffmanNode { frequency: 0, value: None, left: None, right: None }
}

/// The tree has a node at the end of `path`.
pub open spec fn has_node(tree: HuffmanNode, path: Seq<bool>) -> bool {
    tree.node_at(path) is Some
}

/// The byte value at the end of `path`, if a leaf stands there.
pub open spec fn value_at(tree: HuffmanNode, path: Seq<bool>) -> Option<u8> {
    match tree.node_at(path) {
        Some(node) => node.value,
        None => None,
    }
}

/// The frequency of the node at the end of `path`, zero where there is none.
pub open spec fn frequency_at(tree: HuffmanNode, path: Seq<bool>) -> nat {
    match tree.node_at(path) {
        Some(node) => node.frequency as nat,
        None => 0,
    }
}

/// The tree with `symbol` written at the end of `code`; the nodes on the way
/// that the tree lacks are added as bare nodes.
pub open spec fn grafted(tree: HuffmanNode, code: Seq<bool>, symbol: u8) -> HuffmanNode
    decreases code.len(),
{
    if code.len() == 0 {
        HuffmanNode { value: Some(symbol), ..tree }
    } else {
        let below = match tree.child(code[0]) {
            Some(child) => child,
            None => bare(),
        };
        let grown = grafted(below, code.skip(1), symbol);
        if code[0] {
            HuffmanNode { right: Some(Box::new(grown)), ..tree }
        } else {
            HuffmanNode { left: Some(Box::new(grown)), ..tree }
        }
    }
}

/// The code has a place in the tree: it is not empty, it passes no leaf, and
/// the tree has no node yet where it ends.
pub open spec fn is_free(tree: HuffmanNode, code: Seq<bool>) -> bool
    decreases code.len(),
{
    code.len() > 0 && match tree.child(code[0]) {
        Some(child) => child.value is None && is_free(child, code.skip(1)),
        None => true,
    }
}

/// The tree that holds the codes of the byte values below `bound`, added in
/// ascending order to a bare root.
pub open spec fn decoding_tree_below(codes: Map<u8, Seq<bool>>, bound: nat) -> HuffmanNode
    decreases bound,
{
    if bound == 0 {
        bare()
    } else {
        let symbol = (bound - 1) as u8;
        let before = decoding_tree_below(codes, (bound - 1) as nat);
        if codes.contains_key(symbol) {
            grafted(before, codes[symbol], symbol)
        } else {
            before
        }
    }
}

/// The decoding tree of a code table.
pub open spec fn decoding_tree(codes: Map<u8, Seq<bool>>) -> HuffmanNode {
    decoding_tree_below(codes, 256)
}

/// The tree is the decoding tree of the table: it has a node exactly at the root
/// and at each beginning of a code, a byte value exactly at the end of that byte
/// value's code, and the frequency zero everywhere.
pub open spec fn describes(tree: HuffmanNode, codes: Map<u8, Seq<bool>>) -> bool {
    &&& forall|symbol: u8, path: Seq<bool>|
        codes.contains_key(symbol) && #[trigger] path.is_prefix_of(codes[symbol]) ==> has_node(
            tree,
            path,
        )
    &&& forall|path: Seq<bool>| #[trigger]
        has_node(tree, path) && path.len() > 0 ==> exists|symbol: u8|
            codes.contains_key(symbol) && #[trigger] path.is_prefix_of(codes[symbol])
    &&& forall|symbol: u8| #[trigger]
        codes.contains_key(symbol) ==> value_at(tree, codes[symbol]) == Some(symbol)
    &&& forall|path: Seq<bool>|
        (#[trigger] value_at(tree, path)) matches Some(symbol) ==> codes.contains_key(symbol)
            && codes[symbol] == path
    &&& forall|path: Seq<bool>| #[trigger] frequency_at(tree, path) == 0
}

/// The node behind one more bit is the child of the node before it.
pub proof fn lemma_node_at_push(tree: HuffmanNode, path: Seq<bool>, bit: bool)
    ensures
        tree.node_at(path.push(bit)) == match tree.node_at(path) {
            Some(node) => node.child(bit),
            None => None,
        },
    decreases path.len(),
{
    let longer = path.push(bit);
    if path.len() == 0 {
        assert(longer.skip(1) =~= Seq::<bool>::empty());
        match tree.child(bit) {
            Some(next) => {
                assert(next.node_at(longer.skip(1)) == Some(next));
            },
            None => {},
        }
    } else {
        assert(longer.skip(1) =~= path.skip(1).push(bit));
        assert(longer[0] == path[0]);
        match tree.child(path[0]) {
            Some(next) => {
                lemma_node_at_push(next, path.skip(1), bit);
            },
            None => {},
        }
    }
}

/// What a tree holds at a path after a code was grafted on it.
pub proof fn lemma_grafted_node(tree: HuffmanNode, code: Seq<bool>, symbol: u8, path: Seq<bool>)
    ensures
        has_node(grafted(tree, code, symbol), path) == (has_node(tree, path) || path.is_prefix_of(
            code,
        )),
        value_at(grafted(tree, code, symbol), path) == if path == code {
            Some(symbol)
        } else {
            value_at(tree, path)
        },
        frequency_at(grafted(tree, code, symbol), path) == frequency_at(tree, path),
    decreases path.len(),
{
    let grown = grafted(tree, code, symbol);
    if path.len() == 0 {
        assert(path.is_prefix_of(code));
        if code.len() == 0 {
            assert(path =~= code);
        }
    } else if code.len() == 0 {
        assert(grown.child(path[0]) == tree.child(path[0]));
    } else if path[0] == code[0] {
        let below = match tree.child(code[0]) {
            Some(child) => child,
            None => bare(),
        };
        let rest = path.skip(1);
        let tail = code.skip(1);
        lemma_grafted_node(below, tail, symbol, rest);
        assert(grown.child(code[0]) == Some(grafted(below, tail, symbol)));
        assert(path.is_prefix_of(code) == rest.is_prefix_of(tail)) by {
            if path.is_prefix_of(code) {
                assert(rest =~= tail.subrange(0, rest.len() as int)) by {
                    assert forall|i: int| 0 <= i < rest.len() implies rest[i] == tail[i] by {
                        assert(code.subrange(0, path.len() as int)[i + 1] == path[i + 1]);
                    }
                }
            }
            if rest.is_prefix_of(tail) {
                assert(path =~= code.subrange(0, path.len() as int)) by {
                    assert forall|i: int| 0 <= i < path.len() implies path[i] == code[i] by {
                        if i > 0 {
                            assert(tail.subrange(0, rest.len() as int)[i - 1] == rest[i - 1]);
                        }
                    }
                }
            }
        }
        assert((path == code) == (rest == tail)) by {
            if rest == tail {
                assert(path =~= code) by {
                    assert forall|i: int| 0 <= i < path.len() implies path[i] == code[i] by {
                        if i > 0 {
                            assert(rest[i - 1] == tail[i - 1]);
                        }
                    }
                }
            }
        }
        if tree.child(code[0]) is None {
            if rest.len() > 0 {
                assert(bare().child(rest[0]) is None);
            }
            assert(has_node(below, rest) == (rest.len() == 0));
            assert(value_at(below, rest) is None);
            assert(frequency_at(below, rest) == 0);
            if rest.len() == 0 {
                assert(rest.is_prefix_of(tail));
            }
        }
    } else {
        assert(grown.child(path[0]) == tree.child(path[0]));
        if path.is_prefix_of(code) {
            assert(code.subrange(0, path.len() as int)[0] == path[0]);
        }
    }
}

/// A code that has a place passes no leaf and ends where the tree has no node.
pub proof fn lemma_free(tree: HuffmanNode, code: Seq<bool>)
    requires
        is_free(tree, code),
    ensures
        code.len() > 0,
        !has_node(tree, code),
        forall|path: Seq<bool>|
            #[trigger] path.is_prefix_of(code) && 0 < path.len() < code.len() ==> value_at(
                tree,
                path,
            ) is None,
    decreases code.len(),
{
    let tail = code.skip(1);
    match tree.child(code[0]) {
        Some(child) => {
            lemma_free(child, tail);
            assert forall|path: Seq<bool>|
                #[trigger] path.is_prefix_of(code) && 0 < path.len() < code.len() implies value_at(
                tree,
                path,
            ) is None by {
                let rest = path.skip(1);
                assert(code.subrange(0, path.len() as int)[0] == path[0]);
                if rest.len() > 0 {
                    assert(rest =~= tail.subrange(0, rest.len() as int)) by {
                        assert forall|i: int| 0 <= i < rest.len() implies rest[i] == tail[i] by {
                            assert(code.subrange(0, path.len() as int)[i + 1] == path[i + 1]);
                        }
                    }
                    assert(rest.is_prefix_of(tail));
                }
            }
        },
        None => {
            assert forall|path: Seq<bool>|
                #[trigger] path.is_prefix_of(code) && 0 < path.len() < code.len() implies value_at(
                tree,
                path,
            ) is None by {
                assert(code.subrange(0, path.len() as int)[0] == path[0]);
            }
        },
    }
}

/// A code of at least one bit that has no place ends at a node of the tree or
/// passes a leaf.
pub proof fn lemma_not_free(tree: HuffmanNode, code: Seq<bool>) -> (path: Seq<bool>)
    requires
        !is_free(tree, code),
        code.len() > 0,
    ensures
        path.is_prefix_of(code),
        0 < path.len() <= code.len(),
        has_node(tree, path),
        path.len() == code.len() || value_at(tree, path) is Some,
    decreases code.len(),
{
    let tail = code.skip(1);
    let child = tree.child(code[0]).unwrap();
    let first = seq![code[0]];
    assert(first.skip(1) =~= Seq::<bool>::empty());
    assert(first =~= code.subrange(0, 1));
    if child.value is Some || tail.len() == 0 {
        assert(child.node_at(first.skip(1)) == Some(child));
        assert(tree.node_at(first) == Some(child));
        if tail.len() == 0 {
            assert(first =~= code);
        }
        first
    } else {
        let rest = lemma_not_free(child, tail);
        let path = first + rest;
        assert(path.skip(1) =~= rest);
        assert(path =~= code.subrange(0, path.len() as int)) by {
            assert forall|i: int| 0 <= i < path.len() implies path[i] == code[i] by {
                if i > 0 {
                    assert(tail.subrange(0, rest.len() as int)[i - 1] == rest[i - 1]);
                }
            }
        }
        path
    }
}

/// A table stays decodable when entries are left out.
pub proof fn lemma_decodable_under(codes: Map<u8, Seq<bool>>, bound: nat)
    requires
        is_decodable(codes),
    ensures
        is_decodable(codes_under(codes, bound)),
{
    let part = codes_under(codes, bound);
    assert forall|a: u8, b: u8|
        part.contains_key(a) && part.contains_key(b) && a != b implies !(#[trigger] part[a]).is_prefix_of(
        #[trigger] part[b],
    ) by {
        assert(!codes[a].is_prefix_of(codes[b]));
    }
}

/// Grafting a further code on the decoding tree of a decodable table: the code
/// has a place exactly if the table stays decodable with it, and the tree is
/// then the decoding tree of the larger table.
pub proof fn lemma_graft(tree: HuffmanNode, codes: Map<u8, Seq<bool>>, code: Seq<bool>, symbol: u8)
    requires
        describes(tree, codes),
        is_decodable(codes),
        !codes.contains_key(symbol),
    ensures
        is_free(tree, code) <==> is_decodable(codes.insert(symbol, code)),
        is_free(tree, code) ==> describes(grafted(tree, code, symbol), codes.insert(symbol, code)),
{
    let more = codes.insert(symbol, code);
    let grown = grafted(tree, code, symbol);
    if is_free(tree, code) {
        lemma_free(tree, code);
        assert forall|a: u8, b: u8|
            more.contains_key(a) && more.contains_key(b) && a != b implies !(#[trigger] more[a]).is_prefix_of(
            #[trigger] more[b],
        ) by {
            if a == symbol {
                // the new code would begin an old one: the tree has a node at its end
                if code.is_prefix_of(codes[b]) {
                    assert(has_node(tree, code));
                }
            } else if b == symbol {
                // an old code would begin the new one: a leaf stands on its way
                let old = codes[a];
                if old.is_prefix_of(code) {
                    assert(value_at(tree, old) == Some(a));
                    if old.len() == code.len() {
                        assert(old =~= code);
                    }
                }
            } else {
                assert(!codes[a].is_prefix_of(codes[b]));
            }
        }
        assert(is_decodable(more));
        assert forall|other: u8, path: Seq<bool>|
            more.contains_key(other) && #[trigger] path.is_prefix_of(more[other]) implies has_node(
            grown,
            path,
        ) by {
            lemma_grafted_node(tree, code, symbol, path);
            if other != symbol {
                assert(path.is_prefix_of(codes[other]));
            }
        }
        assert forall|path: Seq<bool>| #[trigger]
            has_node(grown, path) && path.len() > 0 implies exists|other: u8|
            more.contains_key(other) && #[trigger] path.is_prefix_of(more[other]) by {
            lemma_grafted_node(tree, code, symbol, path);
            if has_node(tree, path) {
                let other = choose|other: u8|
                    codes.contains_key(other) && #[trigger] path.is_prefix_of(codes[other]);
                assert(more.contains_key(other) && path.is_prefix_of(more[other]));
            } else {
                assert(more.contains_key(symbol) && path.is_prefix_of(more[symbol]));
            }
        }
        assert forall|other: u8| #[trigger] more.contains_key(other) implies value_at(
            grown,
            more[other],
        ) == Some(other) by {
            lemma_grafted_node(tree, code, symbol, more[other]);
            if other != symbol {
                assert(codes.contains_key(other));
                if codes[other] == code {
                    assert(codes[other].is_prefix_of(codes[other]));
                    assert(has_node(tree, code));
                }
            }
        }
        assert forall|path: Seq<bool>| (#[trigger] value_at(grown, path)) is Some implies {
            let other = value_at(grown, path).unwrap();
            more.contains_key(other) && more[other] == path
        } by {
            lemma_grafted_node(tree, code, symbol, path);
            if path != code {
                let other = value_at(tree, path).unwrap();
                assert(codes.contains_key(other) && codes[other] == path);
            }
        }
        assert forall|path: Seq<bool>| #[trigger] frequency_at(grown, path) == 0 by {
            lemma_grafted_node(tree, code, symbol, path);
            assert(frequency_at(tree, path) == 0);
        }
    } else {
        if code.len() > 0 {
            let path = lemma_not_free(tree, code);
            if value_at(tree, path) is Some {
                let other = value_at(tree, path).unwrap();
                assert(codes.contains_key(other) && codes[other] == path);
                assert(more.contains_key(other) && more.contains_key(symbol) && other != symbol);
                assert(more[other].is_prefix_of(more[symbol]));
            } else {
                assert(path =~= code);
                let other = choose|other: u8|
                    codes.contains_key(other) && #[trigger] path.is_prefix_of(codes[other]);
                assert(more.contains_key(other) && more.contains_key(symbol) && other != symbol);
                assert(more[symbol].is_prefix_of(more[other]));
            }
        } else {
            assert(more.contains_key(symbol) && more[symbol].len() == 0);
        }
    }
}

/// A bare root is the decoding tree of the table without entries.
proof fn lemma_bare()
    ensures
        describes(bare(), Map::<u8, Seq<bool>>::empty()),
{
    let codes = Map::<u8, Seq<bool>>::empty();
    assert forall|path: Seq<bool>| path.len() > 0 implies bare().node_at(path) is None by {
        assert(bare().child(path[0]) is None);
    }
    assert forall|path: Seq<bool>| #[trigger] has_node(bare(), path) && path.len() > 0 implies exists|
        symbol: u8,
    |
        codes.contains_key(symbol) && #[trigger] path.is_prefix_of(codes[symbol]) by {
        assert(bare().node_at(path) is None);
    }
    assert forall|path: Seq<bool>| (#[trigger] value_at(bare(), path)) is Some implies {
        let symbol = value_at(bare(), path).unwrap();
        codes.contains_key(symbol) && codes[symbol] == path
    } by {
        if path.len() > 0 {
            assert(bare().node_at(path) is None);
        }
    }
    assert forall|path: Seq<bool>| #[trigger] frequency_at(bare(), path) == 0 by {
        if path.len() > 0 {
            assert(bare().node_at(path) is None);
        }
    }
}

/// The decoding tree of a decodable table holds exactly the table's codes.
pub proof fn lemma_decoding_tree_below(codes: Map<u8, Seq<bool>>, bound: nat)
    requires
        is_decodable(codes),
        bound <= 256,
    ensures
        describes(decoding_tree_below(codes, bound), codes_under(codes, bound)),
    decreases bound,
{
    if bound == 0 {
        lemma_bare();
        assert(codes_under(codes, 0) =~= Map::<u8, Seq<bool>>::empty());
    } else {
        let symbol = (bound - 1) as u8;
        let before = decoding_tree_below(codes, (bound - 1) as nat);
        let part = codes_under(codes, (bound - 1) as nat);
        lemma_decoding_tree_below(codes, (bound - 1) as nat);
        lemma_decodable_under(codes, (bound - 1) as nat);
        lemma_decodable_under(codes, bound);
        if codes.contains_key(symbol) {
            assert(codes_under(codes, bound) =~= part.insert(symbol, codes[symbol]));
            lemma_graft(before, part, codes[symbol], symbol);
        } else {
            assert(codes_under(codes, bound) =~= part);
        }
    }
}

/// The decoding tree of a decodable table holds exactly the table's codes.
pub proof fn lemma_decoding_tree(codes: Map<u8, Seq<bool>>)
    requires
        is_decodable(codes),
    ensures
        describes(decoding_tree(codes), codes),
{
    lemma_decoding_tree_below(codes, 256);
    assert(codes_under(codes, 256) =~= codes);
}

/// Adds what is left of a code, from bit `from` on, below the child in `slot`,
/// and says whether it had a place there.
fn graft_child(slot: &mut Option<Box<HuffmanNode>>, code: &Vec<bool>, from: usize, symbol: u8) -> (placed:
    bool)
    requires
        from <= code.len(),
    ensures
        placed == match *old(slot) {
            Some(child) => child.value is None && is_free(*child, code@.skip(from as int)),
            None => true,
        },
        placed ==> *final(slot) == Some(
            Box::new(
                grafted(
                    match *old(slot) {
                        Some(child) => *child,
                        None => bare(),
                    },
                    code@.skip(from as int),
                    symbol,
                ),
            ),
        ),
        !placed ==> *final(slot) == *old(slot),
    decreases code.len() - from, 1nat,
{
    match slot.take() {
        None => {
            let mut fresh = HuffmanNode::new(0, None);
            if from < code.len() {
                let placed = graft(&mut fresh, code, from, symbol);
                assert(placed);
            } else {
                fresh.value = Some(symbol);
            }
            *slot = Some(Box::new(fresh));
            true
        },
        Some(mut child) => {
            if child.value.is_some() || from == code.len() {
                *slot = Some(child);
                false
            } else {
                let placed = graft(&mut *child, code, from, symbol);
                *slot = Some(child);
                placed
            }
        },
    }
}

/// Adds what is left of a code, from bit `from` on, below `node`, and says
/// whether it had a place there. Without a place the node stays as it was.
fn graft(node: &mut HuffmanNode, code: &Vec<bool>, from: usize, symbol: u8) -> (placed: bool)
    requires
        from < code.len(),
    ensures
        placed == is_free(*old(node), code@.skip(from as int)),
        placed ==> *final(node) == grafted(*old(node), code@.skip(from as int), symbol),
        !placed ==> *final(node) == *old(node),
    decreases code.len() - from, 0nat,
{
    assert(code@.skip(from as int).skip(1) =~= code@.skip(from + 1));
    if code[from] {
        graft_child(&mut node.right, code, from + 1, symbol)
    } else {
        graft_child(&mut node.left, code, from + 1, symbol)
    }
}

/// Builds the decoding tree of a code table: for each byte value with a code, in
/// ascending order, the path that the code spells is walked from the root, the
/// nodes it lacks are made, and the byte value is written at its end.
///
/// A table with an empty code, or with a code that begins another, is refused.
pub fn build_huffman_tree_from_codes(codes: &HashMap<u8, Vec<bool>>) -> (result: Result<
    HuffmanNode,
    CodecError,
>)
    ensures
        match result {
            Ok(tree) => {
                &&& is_decodable(code_map(codes@))
                &&& tree == decoding_tree(code_map(codes@))
                &&& describes(tree, code_map(codes@))
            },
            Err(e) => e == CodecError::AmbiguousCodes && !is_decodable(code_map(codes@)),
        },
{
    let ghost table = code_map(codes@);
    let mut root = HuffmanNode::new(0, None);
    let mut symbol: usize = 0;
    proof {
        lemma_bare();
        assert(codes_under(table, 0) =~= Map::<u8, Seq<bool>>::empty());
    }
    while symbol < 256
        invariant
            symbol <= 256,
            table == code_map(codes@),
            root == decoding_tree_below(table, symbol as nat),
            describes(root, codes_under(table, symbol as nat)),
            is_decodable(codes_under(table, symbol as nat)),
        decreases 256 - symbol,
    {
        let byte: u8 = symbol as u8;
        let ghost part = codes_under(table, symbol as nat);
        match codes.get(&byte) {
            Some(code) => {
                proof {
                    lemma_graft(root, part, code@, byte);
                    assert(codes_under(table, (symbol + 1) as nat) =~= part.insert(byte, code@));
                    assert(code@.skip(0) =~= code@);
                    if is_decodable(table) {
                        lemma_decodable_under(table, (symbol + 1) as nat);
                    }
                }
                if code.len() == 0 {
                    return Err(CodecError::AmbiguousCodes);
                }
                let placed = graft(&mut root, code, 0, byte);
                if !placed {
                    return Err(CodecError::AmbiguousCodes);
                }
            },
            None => {
                assert(codes_under(table, (symbol + 1) as nat) =~= part);
            },
        }
        symbol = symbol + 1;
    }
    assert(codes_under(table, 256) =~= table);
    Ok(root)
}

} // verus!
