use crate::bits::{packed, BitPacker};
use crate::builder::{build_huffman_tree, huffman_tree, lemma_huffman_tree};
use crate::codes::{code_map, code_table, generate_codes, is_decodable, lemma_code_table};
use crate::decompressor::{decompressed, lemma_round_trip};
use crate::error::CodecError;
use crate::frequency::{
    count_frequencies, frequencies, lemma_occurrences_bound, lemma_total_is_length,
};
use crate::table::{serialize_codes, serialized_table};
use std::collections::HashMap;
use vstd::bytes::{spec_u64_to_le_bytes, u64_to_le_bytes};
use vstd::prelude::*;

verus! {

broadcast use vstd::std_specs::hash::group_hash_axioms;

/// The bits that stand for `data`: the codes of its bytes, one after the other.
pub open spec fn encoded(data: Seq<u8>, codes: Map<u8, Seq<bool>>) -> Seq<bool>
    decreases data.len(),
{
    if data.len() == 0 {
        Seq::empty()
    } else {
        codes[data[0]] + encoded(data.skip(1), codes)
    }
}

/// The table has a code for every byte of `data`.
pub open spec fn covers(codes: Map<u8, Seq<bool>>, data: Seq<u8>) -> bool {
    forall|i: int| 0 <= i < data.len() ==> codes.contains_key(#[trigger] data[i])
}

/// The file that a table, a symbol count and a payload make: the table, the
/// count as eight bytes, least significant first, and the payload.
pub open spec fn framed(table: Seq<u8>, symbols: u64, payload: Seq<u8>) -> Seq<u8> {
    table + spec_u64_to_le_bytes(symbols) + payload
}

/// The compressed form of `data`: the code table of its Huffman tree, the
/// number of its bytes, and its bytes' codes packed into bytes.
pub open spec fn compressed(data: Seq<u8>) -> Seq<u8> {
    let codes = code_table(huffman_tree(frequencies(data)));
    framed(serialized_table(codes), data.len() as u64, packed(encoded(data, codes)))
}

/// The bits of two buffers, one after the other, are the bits of the buffers joined.
pub proof fn lemma_encoded_joined(a: Seq<u8>, b: Seq<u8>, codes: Map<u8, Seq<bool>>)
    ensures
        encoded(a + b, codes) == encoded(a, codes) + encoded(b, codes),
    decreases a.len(),
{
    if a.len() == 0 {
        assert(a + b =~= b);
        assert(encoded(a, codes) + encoded(b, codes) =~= encoded(b, codes));
    } else {
        lemma_encoded_joined(a.skip(1), b, codes);
        assert((a + b)[0] == a[0]);
        assert((a + b).skip(1) =~= a.skip(1) + b);
        assert(encoded(a + b, codes) =~= encoded(a, codes) + encoded(b, codes));
    }
}

/// The code table of a buffer's Huffman tree has a usable code for every byte
/// of the buffer.
pub proof fn lemma_table_covers(data: Seq<u8>)
    requires
        0 < data.len() <= usize::MAX,
    ensures
        covers(code_table(huffman_tree(frequencies(data))), data),
        is_decodable(code_table(huffman_tree(frequencies(data)))),
        code_table(huffman_tree(frequencies(data))).dom() == frequencies(data).dom(),
        forall|symbol: u8| #[trigger]
            code_table(huffman_tree(frequencies(data))).contains_key(symbol) ==> code_table(
                huffman_tree(frequencies(data)),
            )[symbol].len() <= 256,
{
    let table = frequencies(data);
    let tree = huffman_tree(table);
    lemma_total_is_length(data);
    lemma_occurrences_bound(data, data[0]);
    assert(table.contains_key(data[0]));
    lemma_huffman_tree(table);
    lemma_code_table(tree);
    assert forall|i: int| 0 <= i < data.len() implies code_table(tree).contains_key(
        #[trigger] data[i],
    ) by {
        lemma_occurrences_bound(data, data[i]);
        assert(table.dom().contains(data[i]));
    }
}

/// Packs the codes of the bytes of `data`, one after the other, into bytes.
///
/// A byte without a code in the table is an error: nothing is left out.
pub fn pack_symbols(data: &[u8], codes: &HashMap<u8, Vec<bool>>) -> (result: Result<
    Vec<u8>,
    CodecError,
>)
    ensures
        match result {
            Ok(payload) => {
                &&& covers(code_map(codes@), data@)
                &&& payload@ == packed(encoded(data@, code_map(codes@)))
            },
            Err(e) => e == CodecError::MissingCode && !covers(code_map(codes@), data@),
        },
{
    let ghost table = code_map(codes@);
    let mut packer = BitPacker::new();
    let mut i: usize = 0;
    assert(data@.take(0) =~= Seq::<u8>::empty());
    while i < data.len()
        invariant
            i <= data.len(),
            table == code_map(codes@),
            packer.well_formed(),
            covers(table, data@.take(i as int)),
            packer@ == encoded(data@.take(i as int), table),
        decreases data.len() - i,
    {
        let byte: u8 = data[i];
        let ghost seen = data@.take(i as int);
        match codes.get(&byte) {
            Some(code) => {
                let mut j: usize = 0;
                while j < code.len()
                    invariant
                        j <= code.len(),
                        packer.well_formed(),
                        packer@ == encoded(seen, table) + code@.take(j as int),
                    decreases code.len() - j,
                {
                    packer.push(code[j]);
                    assert(code@.take(j as int).push(code@[j as int]) =~= code@.take(j + 1));
                    assert(packer@ =~= encoded(seen, table) + code@.take(j + 1));
                    j = j + 1;
                }
                proof {
                    let one = seq![byte];
                    assert(code@.take(j as int) =~= code@);
                    assert(data@.take(i + 1) =~= seen + one);
                    lemma_encoded_joined(seen, one, table);
                    assert(one.skip(1) =~= Seq::<u8>::empty());
                    assert(encoded(one.skip(1), table) =~= Seq::<bool>::empty());
                    assert(encoded(one, table) =~= code@);
                    assert forall|k: int| 0 <= k < i + 1 implies table.contains_key(
                        #[trigger] data@.take(i + 1)[k],
                    ) by {
                        if k < i {
                            assert(data@.take(i + 1)[k] == seen[k]);
                        }
                    }
                }
            },
            None => {
                assert(!table.contains_key(data@[i as int]));
                return Err(CodecError::MissingCode);
            },
        }
        i = i + 1;
    }
    assert(data@.take(i as int) =~= data@);
    Ok(packer.finish())
}

/// Puts a file together: the table, the symbol count and the payload.
pub fn assemble(table: &[u8], symbols: u64, payload: &[u8]) -> (file: Vec<u8>)
    ensures
        file@ == framed(table@, symbols, payload@),
{
    let mut file: Vec<u8> = Vec::new();
    file.extend_from_slice(table);
    let count = u64_to_le_bytes(symbols);
    file.extend_from_slice(count.as_slice());
    file.extend_from_slice(payload);
    assert(file@ =~= framed(table@, symbols, payload@));
    file
}

/// Compresses a buffer: counts its bytes, builds the Huffman tree of the counts,
/// reads the code table off the tree, and writes the table, the number of bytes
/// and the packed codes of the bytes.
///
/// A buffer without bytes is refused, and no other. What comes out decompresses
/// to the buffer.
pub fn compress(data: &[u8]) -> (result: Result<Vec<u8>, CodecError>)
    ensures
        data@.len() > 0 ==> result is Ok,
        match result {
            Ok(file) => {
                &&& data@.len() > 0
                &&& file@ == compressed(data@)
                &&& decompressed(file@) == Ok::<Seq<u8>, CodecError>(data@)
            },
            Err(e) => e == CodecError::EmptyInput && data@.len() == 0,
        },
{
    if data.len() == 0 {
        return Err(CodecError::EmptyInput);
    }
    proof {
        lemma_total_is_length(data@);
        lemma_table_covers(data@);
        lemma_round_trip(data@);
    }
    let table = count_frequencies(data);
    let tree = match build_huffman_tree(&table) {
        Ok(tree) => tree,
        Err(e) => {
            proof {
                lemma_occurrences_bound(data@, data@[0]);
                assert(table@.contains_key(data@[0]));
            }
            return Err(e);
        },
    };
    let mut codes: HashMap<u8, Vec<bool>> = HashMap::new();
    let path: Vec<bool> = Vec::new();
    generate_codes(&tree, &path, &mut codes);
    assert(code_map(codes@) =~= code_table(tree));
    let payload = match pack_symbols(data, &codes) {
        Ok(payload) => payload,
        Err(e) => {
            return Err(e);
        },
    };
    let header = match serialize_codes(&codes) {
        Ok(header) => header,
        Err(e) => {
            return Err(e);
        },
    };
    Ok(assemble(header.as_slice(), data.len() as u64, payload.as_slice()))
}

} // verus!
