use crate::bits::{byte_bits, byte_to_bits, lemma_unpacked_packed, packed, unpacked};
use crate::builder::{huffman_tree, lemma_huffman_tree};
use crate::codes::{code_table, is_decodable};
use crate::compressor::{compressed, covers, encoded, lemma_table_covers};
use crate::error::CodecError;
use crate::frequency::{frequencies, lemma_occurrences_bound, lemma_total_is_length};
use crate::rebuild::{
    build_huffman_tree_from_codes, decoding_tree, describes, has_node, lemma_decoding_tree,
    lemma_node_at_push, value_at,
};
use crate::table::{deserialize_codes, lemma_table_round_trip, parsed_table, serialized_table};
use crate::tree::HuffmanNode;
use vstd::bytes::{
    lemma_auto_spec_u64_to_from_le_bytes, spec_u64_from_le_bytes, spec_u64_to_le_bytes,
    u64_from_le_bytes,
};
use vstd::prelude::*;
use vstd::slice::slice_subrange;

verus! {

/// A byte value in front of what follows it, if anything follows.
pub open spec fn followed(symbol: u8, rest: Option<Seq<u8>>) -> Option<Seq<u8>> {
    match rest {
        Some(rest) => Some(seq![symbol] + rest),
        None => None,
    }
}

/// Bytes in front of what follows them, if anything follows.
pub open spec fn prefixed(head: Seq<u8>, rest: Option<Seq<u8>>) -> Option<Seq<u8>> {
    match rest {
        Some(rest) => Some(head + rest),
        None => None,
    }
}

/// The `count` byte values that the bits from `at` on spell, for a reader that
/// stands at `node` of the tree below `root`. Each bit leads to a child, the
/// right one for a 1; at a leaf its byte value is read and the reader goes back
/// to the root. There is no result where a child is missing or the bits end
/// before `count` byte values are read.
pub open spec fn decoded(
    root: HuffmanNode,
    node: HuffmanNode,
    bits: Seq<bool>,
    at: int,
    count: nat,
) -> Option<Seq<u8>>
    decreases bits.len() - at,
{
    if count == 0 {
        Some(Seq::empty())
    } else if at < 0 || at >= bits.len() {
        None
    } else {
        match node.child(bits[at]) {
            None => None,
            Some(next) => match next.value {
                Some(symbol) => followed(
                    symbol,
                    decoded(root, root, bits, at + 1, (count - 1) as nat),
                ),
                None => decoded(root, next, bits, at + 1, count),
            },
        }
    }
}

/// The first `count` byte values that `bits` spell in `tree`.
pub open spec fn decoded_symbols(tree: HuffmanNode, bits: Seq<bool>, count: nat) -> Option<
    Seq<u8>,
> {
    decoded(tree, tree, bits, 0, count)
}

/// What a file decompresses to: its table is read, the decoding tree of the
/// table is built, the symbol count is read from the eight bytes behind the
/// table, and that many byte values are decoded from the bytes behind the count.
pub open spec fn decompressed(file: Seq<u8>) -> Result<Seq<u8>, CodecError> {
    match parsed_table(file) {
        None => Err(CodecError::MalformedTable),
        Some((codes, used)) => {
            if !is_decodable(codes) {
                Err(CodecError::AmbiguousCodes)
            } else if file.len() < used + 8 {
                Err(CodecError::MalformedPayload)
            } else {
                let symbols = spec_u64_from_le_bytes(file.subrange(used as int, used as int + 8));
                let bits = unpacked(file.skip(used as int + 8));
                match decoded_symbols(decoding_tree(codes), bits, symbols as nat) {
                    Some(data) => Ok(data),
                    None => Err(CodecError::MalformedPayload),
                }
            }
        },
    }
}

/// A reader on the way along a code arrives at the code's byte value.
proof fn lemma_walk(
    tree: HuffmanNode,
    codes: Map<u8, Seq<bool>>,
    symbol: u8,
    bits: Seq<bool>,
    at: int,
    step: int,
    count: nat,
)
    requires
        describes(tree, codes),
        is_decodable(codes),
        codes.contains_key(symbol),
        0 <= step < codes[symbol].len(),
        0 <= at,
        at + codes[symbol].len() <= bits.len(),
        bits.subrange(at, at + codes[symbol].len()) == codes[symbol],
        count > 0,
    ensures
        has_node(tree, codes[symbol].take(step)),
        decoded(tree, tree.node_at(codes[symbol].take(step)).unwrap(), bits, at + step, count)
            == followed(
            symbol,
            decoded(tree, tree, bits, at + codes[symbol].len(), (count - 1) as nat),
        ),
    decreases codes[symbol].len() - step,
{
    let code = codes[symbol];
    let here = code.take(step);
    let there = code.take(step + 1);
    assert(here.is_prefix_of(code));
    assert(there.is_prefix_of(code));
    assert(has_node(tree, here));
    assert(has_node(tree, there));
    let node = tree.node_at(here).unwrap();
    assert(bits.subrange(at, at + code.len())[step] == code[step]);
    assert(there =~= here.push(code[step]));
    lemma_node_at_push(tree, here, code[step]);
    let next = node.child(code[step]).unwrap();
    if step + 1 == code.len() {
        assert(there =~= code);
        assert(value_at(tree, code) == Some(symbol));
    } else {
        if value_at(tree, there) is Some {
            let other = value_at(tree, there).unwrap();
            assert(codes.contains_key(other) && codes[other] == there);
            assert(codes[other].is_prefix_of(codes[symbol]));
        }
        lemma_walk(tree, codes, symbol, bits, at, step + 1, count);
    }
}

/// Decoding the bits that stand for a buffer gives the buffer, whatever bits
/// follow them.
pub proof fn lemma_decoded_encoded(
    tree: HuffmanNode,
    codes: Map<u8, Seq<bool>>,
    data: Seq<u8>,
    bits: Seq<bool>,
    at: int,
)
    requires
        describes(tree, codes),
        is_decodable(codes),
        covers(codes, data),
        0 <= at,
        at + encoded(data, codes).len() <= bits.len(),
        bits.subrange(at, at + encoded(data, codes).len()) == encoded(data, codes),
    ensures
        decoded(tree, tree, bits, at, data.len()) == Some(data),
    decreases data.len(),
{
    if data.len() == 0 {
        assert(data =~= Seq::<u8>::empty());
    } else {
        let symbol = data[0];
        let code = codes[symbol];
        let rest = data.skip(1);
        let all = encoded(data, codes);
        let tail = encoded(rest, codes);
        assert(codes.contains_key(symbol));
        assert(code.len() > 0);
        assert(all == code + tail);
        assert(bits.subrange(at, at + code.len()) =~= code) by {
            assert forall|i: int| 0 <= i < code.len() implies bits[at + i] == code[i] by {
                assert(bits.subrange(at, at + all.len())[i] == all[i]);
            }
        }
        let next = at + code.len();
        assert(bits.subrange(next, next + tail.len()) =~= tail) by {
            assert forall|i: int| 0 <= i < tail.len() implies bits[next + i] == tail[i] by {
                assert(bits.subrange(at, at + all.len())[code.len() + i] == all[code.len() + i]);
            }
        }
        assert forall|i: int| 0 <= i < rest.len() implies codes.contains_key(#[trigger] rest[i]) by {
            assert(rest[i] == data[i + 1]);
        }
        lemma_decoded_encoded(tree, codes, rest, bits, next);
        lemma_walk(tree, codes, symbol, bits, at, 0, data.len());
        assert(code.take(0) =~= Seq::<bool>::empty());
        assert(tree.node_at(code.take(0)) == Some(tree));
        assert(seq![symbol] + rest =~= data);
    }
}

/// Every buffer of at least one byte (and no longer than a buffer can be)
/// decompresses from its compressed form to itself.
pub proof fn lemma_round_trip(data: Seq<u8>)
    requires
        0 < data.len() <= usize::MAX,
    ensures
        decompressed(compressed(data)) == Ok::<Seq<u8>, CodecError>(data),
{
    let codes = code_table(huffman_tree(frequencies(data)));
    let table = serialized_table(codes);
    let count = spec_u64_to_le_bytes(data.len() as u64);
    let bits = encoded(data, codes);
    let payload = packed(bits);
    let file = compressed(data);
    lemma_table_covers(data);
    lemma_auto_spec_u64_to_from_le_bytes();
    assert(file =~= table + (count + payload));
    lemma_table_round_trip(codes, count + payload);
    let used = table.len();
    assert(file.subrange(used as int, used as int + 8) =~= count);
    assert(file.skip(used as int + 8) =~= payload);
    lemma_decoding_tree(codes);
    lemma_unpacked_packed(bits);
    let read = unpacked(payload);
    assert(read.subrange(0, bits.len() as int) =~= bits);
    lemma_decoded_encoded(decoding_tree(codes), codes, data, read, 0);
}

/// A buffer that repeats one byte value has the code table with the single code
/// of one 0 bit, and decompresses from its compressed form to itself.
pub proof fn lemma_single_symbol_round_trip(symbol: u8, count: nat)
    requires
        0 < count <= usize::MAX,
    ensures
        code_table(huffman_tree(frequencies(Seq::new(count, |i: int| symbol))))
            == Map::<u8, Seq<bool>>::empty().insert(symbol, seq![false]),
        decompressed(compressed(Seq::new(count, |i: int| symbol))) == Ok::<Seq<u8>, CodecError>(
            Seq::new(count, |i: int| symbol),
        ),
{
    let data = Seq::new(count, |i: int| symbol);
    let table = frequencies(data);
    let tree = huffman_tree(table);
    lemma_round_trip(data);
    lemma_total_is_length(data);
    assert(data[0] == symbol);
    assert(data.contains(symbol));
    lemma_occurrences_bound(data, symbol);
    assert(table.contains_key(symbol));
    assert forall|other: u8| other != symbol implies !table.contains_key(other) by {
        lemma_occurrences_bound(data, other);
        if data.contains(other) {
            let i = choose|i: int| 0 <= i < data.len() && data[i] == other;
            assert(data[i] == symbol);
        }
    }
    lemma_huffman_tree(table);
    assert(table.dom() =~= set![symbol]);
    assert(tree.leaves().dom() =~= set![symbol]);
    match tree.value {
        Some(value) => {
            assert(tree.leaves().dom().contains(value));
        },
        None => {
            let left = tree.left.unwrap();
            let right = tree.right.unwrap();
            left.lemma_has_leaf();
            right.lemma_has_leaf();
            let below_left = choose|other: u8| left.leaves().contains_key(other);
            let below_right = choose|other: u8| right.leaves().contains_key(other);
            assert(tree.leaves().dom().contains(below_left));
            assert(tree.leaves().dom().contains(below_right));
            assert(left.leaves().dom().contains(symbol) && right.leaves().dom().contains(symbol));
        },
    }
    assert(code_table(tree) =~= Map::<u8, Seq<bool>>::empty().insert(symbol, seq![false]));
}

/// Reads `count` byte values from the bits of `payload`, most significant bit
/// of each byte first, by walking `tree` from its root: left on a 0 bit, right
/// on a 1 bit, and back to the root at each leaf.
///
/// The payload is refused where a bit leads to a child that the tree lacks, or
/// the bits end before `count` byte values are read. The bits behind the last
/// byte value read are not looked at.
pub fn decode_symbols(tree: &HuffmanNode, payload: &[u8], count: u64) -> (result: Result<
    Vec<u8>,
    CodecError,
>)
    ensures
        match result {
            Ok(data) => decoded_symbols(*tree, unpacked(payload@), count as nat) == Some(data@),
            Err(e) => {
                &&& e == CodecError::MalformedPayload
                &&& decoded_symbols(*tree, unpacked(payload@), count as nat) is None
            },
        },
{
    let ghost bits = unpacked(payload@);
    let ghost goal = decoded(*tree, *tree, bits, 0, count as nat);
    let mut out: Vec<u8> = Vec::new();
    if count == 0 {
        return Ok(out);
    }
    let mut current: &HuffmanNode = tree;
    let mut i: usize = 0;
    assert(goal == prefixed(out@, goal)) by {
        if goal is Some {
            assert(out@ + goal.unwrap() =~= goal.unwrap());
        }
    }
    while i < payload.len()
        invariant
            i <= payload.len(),
            bits == unpacked(payload@),
            goal == decoded(*tree, *tree, bits, 0, count as nat),
            out@.len() < count,
            goal == prefixed(
                out@,
                decoded(*tree, *current, bits, 8 * i as int, (count - out@.len()) as nat),
            ),
        decreases payload.len() - i,
    {
        let digits = byte_to_bits(payload[i]);
        let mut j: usize = 0;
        while j < 8
            invariant
                j <= 8,
                i < payload.len(),
                bits == unpacked(payload@),
                digits@ == byte_bits(payload@[i as int]),
                goal == decoded(*tree, *tree, bits, 0, count as nat),
                out@.len() < count,
                goal == prefixed(
                    out@,
                    decoded(*tree, *current, bits, 8 * i + j, (count - out@.len()) as nat),
                ),
            decreases 8 - j,
        {
            let bit: bool = digits[j];
            let ghost at = 8 * i + j;
            let ghost before = out@;
            assert(bits[at] == bit);
            let next = if bit { &current.right } else { &current.left };
            match next {
                None => {
                    return Err(CodecError::MalformedPayload);
                },
                Some(child) => {
                    match child.value {
                        Some(value) => {
                            out.push(value);
                            let ghost rest = decoded(
                                *tree,
                                *tree,
                                bits,
                                at + 1,
                                (count - out@.len()) as nat,
                            );
                            assert(goal == prefixed(out@, rest)) by {
                                if rest is Some {
                                    assert(before + (seq![value] + rest.unwrap()) =~= out@
                                        + rest.unwrap());
                                }
                            }
                            if out.len() as u64 == count {
                                assert(out@ + Seq::<u8>::empty() =~= out@);
                                return Ok(out);
                            }
                            current = tree;
                        },
                        None => {
                            current = &**child;
                        },
                    }
                },
            }
            j = j + 1;
        }
        i = i + 1;
    }
    Err(CodecError::MalformedPayload)
}

/// Decompresses a file: reads the code table, builds its decoding tree, reads
/// the symbol count, and decodes that many byte values from the payload.
pub fn decompress(file: &[u8]) -> (result: Result<Vec<u8>, CodecError>)
    ensures
        match result {
            Ok(data) => decompressed(file@) == Ok::<Seq<u8>, CodecError>(data@),
            Err(e) => decompressed(file@) == Err::<Seq<u8>, CodecError>(e),
        },
{
    let (codes, used) = match deserialize_codes(file) {
        Ok(table) => table,
        Err(e) => {
            return Err(e);
        },
    };
    let tree = match build_huffman_tree_from_codes(&codes) {
        Ok(tree) => tree,
        Err(e) => {
            return Err(e);
        },
    };
    if file.len() - used < 8 {
        return Err(CodecError::MalformedPayload);
    }
    let symbols = u64_from_le_bytes(slice_subrange(file, used, used + 8));
    let payload = slice_subrange(file, used + 8, file.len());
    decode_symbols(&tree, payload, symbols)
}

} // verus!
