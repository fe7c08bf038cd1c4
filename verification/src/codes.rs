use crate::tree::HuffmanNode;
use std::collections::HashMap;
use vstd::prelude::*;

verus! {

broadcast use vstd::std_specs::hash::group_hash_axioms;

/// What a code table says: for each byte value that has a code, its bits.
pub open spec fn code_map(codes: Map<u8, Vec<bool>>) -> Map<u8, Seq<bool>> {
    Map::new(|symbol: u8| codes.contains_key(symbol), |symbol: u8| codes[symbol]@)
}

/// The code of a leaf that `path` leads to. The leaf of a tree that is a single
/// leaf has the empty path; its code is one 0 bit.
pub open spec fn leaf_code(path: Seq<bool>) -> Seq<bool> {
    if path.len() == 0 { seq![false] } else { path }
}

/// The codes of the leaves below `node`, which `path` leads to: a 0 bit is
/// added for a left child and a 1 bit for a right child.
pub open spec fn codes_below(node: HuffmanNode, path: Seq<bool>) -> Map<u8, Seq<bool>>
    decreases node,
{
    match node.value {
        Some(symbol) => Map::empty().insert(symbol, leaf_code(path)),
        None => {
            let below_left = match node.left {
                Some(child) => codes_below(*child, path.push(false)),
                None => Map::empty(),
            };
            let below_right = match node.right {
                Some(child) => codes_below(*child, path.push(true)),
                None => Map::empty(),
            };
            below_left.union_prefer_right(below_right)
        },
    }
}

/// The codes of the leaves below the left child, if there is one.
pub open spec fn codes_below_left(node: HuffmanNode, path: Seq<bool>) -> Map<u8, Seq<bool>> {
    match node.left {
        Some(child) => codes_below(*child, path.push(false)),
        None => Map::empty(),
    }
}

/// The codes of the leaves below the right child, if there is one.
pub open spec fn codes_below_right(node: HuffmanNode, path: Seq<bool>) -> Map<u8, Seq<bool>> {
    match node.right {
        Some(child) => codes_below(*child, path.push(true)),
        None => Map::empty(),
    }
}

/// The code table of a tree.
pub open spec fn code_table(tree: HuffmanNode) -> Map<u8, Seq<bool>> {
    codes_below(tree, Seq::empty())
}

/// The codes of a table for the byte values below `bound`.
pub open spec fn codes_under(codes: Map<u8, Seq<bool>>, bound: nat) -> Map<u8, Seq<bool>> {
    Map::new(|symbol: u8| symbol < bound && codes.contains_key(symbol), |symbol: u8| codes[symbol])
}

/// No code is the beginning of the code of another byte value.
pub open spec fn is_prefix_free(codes: Map<u8, Seq<bool>>) -> bool {
    forall|a: u8, b: u8|
        codes.contains_key(a) && codes.contains_key(b) && a != b ==> !(#[trigger] codes[a]).is_prefix_of(
            #[trigger] codes[b],
        )
}

/// A table that a decoder can use: no code is empty, and none begins another.
pub open spec fn is_decodable(codes: Map<u8, Seq<bool>>) -> bool {
    &&& forall|symbol: u8| codes.contains_key(symbol) ==> (#[trigger] codes[symbol]).len() > 0
    &&& is_prefix_free(codes)
}

/// Every code below a node has a bit, begins with the node's path, and is at
/// most the node's height longer than the path (one bit where the path is empty
/// and the node a leaf).
pub proof fn lemma_codes_below(node: HuffmanNode, path: Seq<bool>)
    ensures
        codes_below(node, path).dom() == node.leaves().dom(),
        forall|symbol: u8| #[trigger]
            codes_below(node, path).contains_key(symbol) ==> {
                let code = codes_below(node, path)[symbol];
                &&& code.len() > 0
                &&& path.len() > 0 ==> path.is_prefix_of(code)
                &&& code.len() <= path.len() + node.height() + 1
            },
    decreases node,
{
    if node.value is None {
        let below_left = match node.left {
            Some(child) => codes_below(*child, path.push(false)),
            None => Map::empty(),
        };
        let below_right = match node.right {
            Some(child) => codes_below(*child, path.push(true)),
            None => Map::empty(),
        };
        if let Some(child) = node.left {
            lemma_codes_below(*child, path.push(false));
        }
        if let Some(child) = node.right {
            lemma_codes_below(*child, path.push(true));
        }
        assert forall|symbol: u8| #[trigger]
            codes_below(node, path).contains_key(symbol) implies {
            let code = codes_below(node, path)[symbol];
            &&& code.len() > 0
            &&& path.len() > 0 ==> path.is_prefix_of(code)
            &&& code.len() <= path.len() + node.height() + 1
        } by {
            let code = codes_below(node, path)[symbol];
            if below_right.contains_key(symbol) {
                assert(path.push(true).is_prefix_of(code));
                assert(code.subrange(0, path.len() as int) =~= path.push(true).subrange(
                    0,
                    path.len() as int,
                ));
            } else {
                assert(below_left.contains_key(symbol));
                assert(path.push(false).is_prefix_of(code));
                assert(code.subrange(0, path.len() as int) =~= path.push(false).subrange(
                    0,
                    path.len() as int,
                ));
            }
        }
        assert(codes_below(node, path).dom() =~= node.leaves().dom());
    } else {
        assert(codes_below(node, path).dom() =~= node.leaves().dom());
    }
}

/// Two bit strings that part ways after a common beginning do not begin each other.
proof fn lemma_parted(path: Seq<bool>, x: Seq<bool>, y: Seq<bool>)
    requires
        path.push(false).is_prefix_of(x),
        path.push(true).is_prefix_of(y),
    ensures
        !x.is_prefix_of(y),
        !y.is_prefix_of(x),
{
    let n = path.len() as int;
    assert(x.subrange(0, n + 1)[n] == path.push(false)[n]);
    assert(y.subrange(0, n + 1)[n] == path.push(true)[n]);
    if x.is_prefix_of(y) {
        assert(y.subrange(0, x.len() as int)[n] == x[n]);
    }
    if y.is_prefix_of(x) {
        assert(x.subrange(0, y.len() as int)[n] == y[n]);
    }
}

/// Among the codes below a node none begins another.
pub proof fn lemma_codes_below_prefix_free(node: HuffmanNode, path: Seq<bool>)
    ensures
        is_prefix_free(codes_below(node, path)),
    decreases node,
{
    if node.value is None {
        let below_left = match node.left {
            Some(child) => codes_below(*child, path.push(false)),
            None => Map::empty(),
        };
        let below_right = match node.right {
            Some(child) => codes_below(*child, path.push(true)),
            None => Map::empty(),
        };
        if let Some(child) = node.left {
            lemma_codes_below(*child, path.push(false));
            lemma_codes_below_prefix_free(*child, path.push(false));
        }
        if let Some(child) = node.right {
            lemma_codes_below(*child, path.push(true));
            lemma_codes_below_prefix_free(*child, path.push(true));
        }
        let codes = codes_below(node, path);
        assert forall|a: u8, b: u8|
            codes.contains_key(a) && codes.contains_key(b) && a != b implies !(
        #[trigger] codes[a]).is_prefix_of(#[trigger] codes[b]) by {
            if below_right.contains_key(a) {
                if !below_right.contains_key(b) {
                    lemma_parted(path, codes[b], codes[a]);
                }
            } else {
                if below_right.contains_key(b) {
                    lemma_parted(path, codes[a], codes[b]);
                }
            }
        }
    }
}

/// In the code table of any tree, no code is the beginning of another.
pub proof fn lemma_code_table_prefix_free(tree: HuffmanNode)
    ensures
        is_prefix_free(code_table(tree)),
{
    lemma_codes_below_prefix_free(tree, Seq::empty());
}

/// The code table of a tree gives each leaf's byte value a code that a decoder
/// can use, of at most the tree's height (one bit for a single leaf).
pub proof fn lemma_code_table(tree: HuffmanNode)
    ensures
        is_decodable(code_table(tree)),
        code_table(tree).dom() == tree.leaves().dom(),
        forall|symbol: u8| #[trigger]
            code_table(tree).contains_key(symbol) ==> code_table(tree)[symbol].len()
                <= tree.height() + 1,
{
    lemma_codes_below(tree, Seq::empty());
    lemma_codes_below_prefix_free(tree, Seq::empty());
}

/// Writes the codes of the leaves below `node` into `codes`, where `prefix` is
/// the path that leads to `node`. A leaf reached by the empty path, which is a
/// whole tree, gets the code of one 0 bit.
pub fn generate_codes(node: &HuffmanNode, prefix: &Vec<bool>, codes: &mut HashMap<u8, Vec<bool>>)
    ensures
        code_map(final(codes)@) == code_map(old(codes)@).union_prefer_right(
            codes_below(*node, prefix@),
        ),
    decreases node,
{
    let ghost before = code_map(codes@);
    if let Some(value) = node.value {
        let mut code: Vec<bool> = prefix.clone();
        if code.len() == 0 {
            code.push(false);
        }
        assert(code@ =~= leaf_code(prefix@));
        codes.insert(value, code);
        assert(code_map(codes@) =~= before.union_prefer_right(codes_below(*node, prefix@)));
        return ;
    }
    let ghost below_left = codes_below_left(*node, prefix@);
    let ghost below_right = codes_below_right(*node, prefix@);
    if let Some(left) = &node.left {
        let mut path: Vec<bool> = prefix.clone();
        path.push(false);
        assert(path@ =~= prefix@.push(false));
        generate_codes(left, &path, codes);
    }
    assert(code_map(codes@) =~= before.union_prefer_right(below_left));
    if let Some(right) = &node.right {
        let mut path: Vec<bool> = prefix.clone();
        path.push(true);
        assert(path@ =~= prefix@.push(true));
        generate_codes(right, &path, codes);
    }
    assert(code_map(codes@) =~= before.union_prefer_right(below_left.union_prefer_right(below_right)));
}

} // verus!
