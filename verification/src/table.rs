use crate::codes::{code_map, codes_under};
use crate::error::CodecError;
use std::collections::HashMap;
use vstd::bytes::{
    lemma_auto_spec_u64_to_from_le_bytes, spec_u64_from_le_bytes, spec_u64_to_le_bytes,
};
use vstd::prelude::*;

verus! {

broadcast use vstd::std_specs::hash::group_hash_axioms;

/// The error type of the outside serializer, `bincode::ErrorKind`. Nothing is
/// read from it.
#[verifier::external_type_specification]
#[verifier::external_body]
pub struct ExErrorKind(bincode::ErrorKind);

/// The bytes of one entry: the byte value, the length of the code's text as
/// eight bytes, least significant first, and the text.
pub open spec fn entry_bytes(entry: (u8, Seq<u8>)) -> Seq<u8> {
    seq![entry.0] + spec_u64_to_le_bytes(entry.1.len() as u64) + entry.1
}

/// The bytes of a row of entries, one after the other.
pub open spec fn entries_bytes(entries: Seq<(u8, Seq<u8>)>) -> Seq<u8>
    decreases entries.len(),
{
    if entries.len() == 0 {
        Seq::empty()
    } else {
        entry_bytes(entries[0]) + entries_bytes(entries.skip(1))
    }
}

/// The bytes of a table: the number of entries as eight bytes, least
/// significant first, and the entries.
pub open spec fn table_bytes(entries: Seq<(u8, Seq<u8>)>) -> Seq<u8> {
    spec_u64_to_le_bytes(entries.len() as u64) + entries_bytes(entries)
}

/// Every length of the table can be written in eight bytes.
pub open spec fn fits(entries: Seq<(u8, Seq<u8>)>) -> bool {
    &&& entries.len() <= u64::MAX
    &&& forall|i: int| 0 <= i < entries.len() ==> (#[trigger] entries[i]).1.len() <= u64::MAX
}

/// The entries of a vector, each text as a sequence.
pub open spec fn entries_view(entries: Seq<(u8, Vec<u8>)>) -> Seq<(u8, Seq<u8>)> {
    Seq::new(entries.len(), |i: int| (entries[i].0, entries[i].1@))
}

/// `bytes` begins with the bytes of the table of `entries`.
pub open spec fn begins_with_table(bytes: Seq<u8>, entries: Seq<(u8, Seq<u8>)>) -> bool {
    fits(entries) && table_bytes(entries).is_prefix_of(bytes)
}

/// Calls `bincode::serialize` on a vector of pairs of a byte and a byte vector.
/// The contract is not proved. It states that the call succeeds: no size limit
/// is set, a vector always knows its length, and the bytes are written into a
/// byte vector, which takes every write. It states the format that the
/// serializer writes with its fixed-width integers: the vector's length in eight
/// bytes, least significant first, and for each pair its byte, the length of its
/// vector in the same form, and the vector's bytes.
#[verifier::external_body]
fn write_entries(entries: &Vec<(u8, Vec<u8>)>) -> (result: Result<Vec<u8>, bincode::Error>)
    ensures
        result is Ok,
        result matches Ok(bytes) ==> bytes@ == table_bytes(entries_view(entries@)),
{
    bincode::serialize(entries)
}

/// Calls `bincode::deserialize` for a vector of pairs of a byte and a byte
/// vector. The contract is not proved: it states that the call reads what
/// `bincode::serialize` writes from the front of `bytes` and leaves the bytes
/// behind it alone. It succeeds with the entries whose bytes stand at the front,
/// and it fails only where no entries have their bytes there. After a length it
/// reads the bytes of the vector one at a time and fails where the slice ends
/// before it has read as many as the length says, so a false length makes it
/// fail.
#[verifier::external_body]
fn read_entries(bytes: &[u8]) -> (result: Result<Vec<(u8, Vec<u8>)>, bincode::Error>)
    ensures
        match result {
            Ok(entries) => table_bytes(entries_view(entries@)).is_prefix_of(bytes@),
            Err(_) => forall|entries: Seq<(u8, Seq<u8>)>|
                fits(entries) ==> !(#[trigger] table_bytes(entries)).is_prefix_of(bytes@),
        },
{
    bincode::deserialize(bytes)
}

/// The text of a code: the character `1` for a 1 bit and `0` for a 0 bit.
pub open spec fn code_text(code: Seq<bool>) -> Seq<u8> {
    Seq::new(code.len(), |i: int| if code[i] { 49u8 } else { 48u8 })
}

/// The text holds the characters `0` and `1` only.
pub open spec fn is_code_text(text: Seq<u8>) -> bool {
    forall|i: int| 0 <= i < text.len() ==> text[i] == 48u8 || text[i] == 49u8
}

/// The code that a text stands for.
pub open spec fn text_code(text: Seq<u8>) -> Seq<bool> {
    Seq::new(text.len(), |i: int| text[i] == 49u8)
}

/// The entries of a code table for the byte values below `bound`, in
/// ascending order.
pub open spec fn table_entries(codes: Map<u8, Seq<bool>>, bound: nat) -> Seq<(u8, Seq<u8>)>
    decreases bound,
{
    if bound == 0 {
        Seq::empty()
    } else {
        let symbol = (bound - 1) as u8;
        let before = table_entries(codes, (bound - 1) as nat);
        if codes.contains_key(symbol) {
            before.push((symbol, code_text(codes[symbol])))
        } else {
            before
        }
    }
}

/// The bytes that a code table is written as.
pub open spec fn serialized_table(codes: Map<u8, Seq<bool>>) -> Seq<u8> {
    table_bytes(table_entries(codes, 256))
}

/// The code table that a row of entries describes. There is none where a byte
/// value has two entries or a text holds another character than `0` and `1`.
pub open spec fn entries_table(entries: Seq<(u8, Seq<u8>)>) -> Option<Map<u8, Seq<bool>>>
    decreases entries.len(),
{
    if entries.len() == 0 {
        Some(Map::empty())
    } else {
        match entries_table(entries.drop_last()) {
            None => None,
            Some(table) => {
                let entry = entries.last();
                if table.contains_key(entry.0) || !is_code_text(entry.1) {
                    None
                } else {
                    Some(table.insert(entry.0, text_code(entry.1)))
                }
            },
        }
    }
}

/// The entries whose bytes stand at the front of `bytes`, if there are any.
pub open spec fn parsed_entries(bytes: Seq<u8>) -> Option<Seq<(u8, Seq<u8>)>> {
    if exists|entries: Seq<(u8, Seq<u8>)>| begins_with_table(bytes, entries) {
        Some(choose|entries: Seq<(u8, Seq<u8>)>| begins_with_table(bytes, entries))
    } else {
        None
    }
}

/// The code table at the front of `bytes`, with the number of bytes it takes.
pub open spec fn parsed_table(bytes: Seq<u8>) -> Option<(Map<u8, Seq<bool>>, nat)> {
    match parsed_entries(bytes) {
        None => None,
        Some(entries) => match entries_table(entries) {
            None => None,
            Some(table) => Some((table, table_bytes(entries).len())),
        },
    }
}

/// The bytes of two rows of entries, one after the other, are the bytes of
/// the rows joined.
pub proof fn lemma_entries_bytes_joined(a: Seq<(u8, Seq<u8>)>, b: Seq<(u8, Seq<u8>)>)
    ensures
        entries_bytes(a + b) == entries_bytes(a) + entries_bytes(b),
    decreases a.len(),
{
    if a.len() == 0 {
        assert(a + b =~= b);
        assert(entries_bytes(a) + entries_bytes(b) =~= entries_bytes(b));
    } else {
        lemma_entries_bytes_joined(a.skip(1), b);
        assert((a + b)[0] == a[0]);
        assert((a + b).skip(1) =~= a.skip(1) + b);
        assert(entries_bytes(a + b) =~= entries_bytes(a) + entries_bytes(b));
    }
}

/// The length of an entry's bytes.
proof fn lemma_entry_len(entry: (u8, Seq<u8>))
    ensures
        entry_bytes(entry).len() == 9 + entry.1.len(),
{
    lemma_auto_spec_u64_to_from_le_bytes();
}

/// Two rows of as many entries whose bytes stand at the same place are the same.
proof fn lemma_entries_unique(
    a: Seq<(u8, Seq<u8>)>,
    b: Seq<(u8, Seq<u8>)>,
    bytes: Seq<u8>,
    from: int,
)
    requires
        a.len() == b.len(),
        fits(a),
        fits(b),
        0 <= from,
        from + entries_bytes(a).len() <= bytes.len(),
        from + entries_bytes(b).len() <= bytes.len(),
        bytes.subrange(from, from + entries_bytes(a).len()) == entries_bytes(a),
        bytes.subrange(from, from + entries_bytes(b).len()) == entries_bytes(b),
    ensures
        a == b,
    decreases a.len(),
{
    if a.len() == 0 {
        assert(a =~= b);
    } else {
        lemma_auto_spec_u64_to_from_le_bytes();
        let xa = entries_bytes(a);
        let xb = entries_bytes(b);
        let ea = entry_bytes(a[0]);
        let eb = entry_bytes(b[0]);
        let la = spec_u64_to_le_bytes(a[0].1.len() as u64);
        let lb = spec_u64_to_le_bytes(b[0].1.len() as u64);
        lemma_entry_len(a[0]);
        lemma_entry_len(b[0]);
        assert(bytes.subrange(from, from + xa.len())[0] == xa[0]);
        assert(bytes.subrange(from, from + xb.len())[0] == xb[0]);
        assert(a[0].0 == b[0].0);
        assert forall|i: int| 0 <= i < 8 implies la[i] == lb[i] by {
            assert(bytes.subrange(from, from + xa.len())[1 + i] == xa[1 + i]);
            assert(bytes.subrange(from, from + xb.len())[1 + i] == xb[1 + i]);
            assert(xa[1 + i] == ea[1 + i]);
            assert(xb[1 + i] == eb[1 + i]);
        }
        assert(la =~= lb);
        assert(spec_u64_from_le_bytes(la) == a[0].1.len() as u64);
        assert(spec_u64_from_le_bytes(lb) == b[0].1.len() as u64);
        assert(a[0].1.len() == b[0].1.len());
        let n = a[0].1.len() as int;
        assert forall|i: int| 0 <= i < n implies a[0].1[i] == b[0].1[i] by {
            assert(bytes.subrange(from, from + xa.len())[9 + i] == xa[9 + i]);
            assert(bytes.subrange(from, from + xb.len())[9 + i] == xb[9 + i]);
            assert(xa[9 + i] == ea[9 + i]);
            assert(xb[9 + i] == eb[9 + i]);
        }
        assert(a[0].1 =~= b[0].1);
        assert(a[0] == b[0]);
        let ra = entries_bytes(a.skip(1));
        let rb = entries_bytes(b.skip(1));
        let next = from + 9 + n;
        assert(bytes.subrange(next, next + ra.len()) =~= ra) by {
            assert forall|i: int| 0 <= i < ra.len() implies bytes[next + i] == ra[i] by {
                assert(bytes.subrange(from, from + xa.len())[9 + n + i] == xa[9 + n + i]);
            }
        }
        assert(bytes.subrange(next, next + rb.len()) =~= rb) by {
            assert forall|i: int| 0 <= i < rb.len() implies bytes[next + i] == rb[i] by {
                assert(bytes.subrange(from, from + xb.len())[9 + n + i] == xb[9 + n + i]);
            }
        }
        assert(fits(a.skip(1))) by {
            assert forall|i: int| 0 <= i < a.skip(1).len() implies (#[trigger] a.skip(1)[i]).1.len()
                <= u64::MAX by {
                assert(a.skip(1)[i] == a[i + 1]);
            }
        }
        assert(fits(b.skip(1))) by {
            assert forall|i: int| 0 <= i < b.skip(1).len() implies (#[trigger] b.skip(1)[i]).1.len()
                <= u64::MAX by {
                assert(b.skip(1)[i] == b[i + 1]);
            }
        }
        lemma_entries_unique(a.skip(1), b.skip(1), bytes, next);
        assert forall|i: int| 0 <= i < a.len() implies a[i] == b[i] by {
            if i > 0 {
                assert(a.skip(1)[i - 1] == a[i]);
                assert(b.skip(1)[i - 1] == b[i]);
            }
        }
        assert(a =~= b);
    }
}

/// At most one table has its bytes at the front of given bytes.
pub proof fn lemma_table_unique(bytes: Seq<u8>, a: Seq<(u8, Seq<u8>)>, b: Seq<(u8, Seq<u8>)>)
    requires
        begins_with_table(bytes, a),
        begins_with_table(bytes, b),
    ensures
        a == b,
{
    lemma_auto_spec_u64_to_from_le_bytes();
    let ca = spec_u64_to_le_bytes(a.len() as u64);
    let cb = spec_u64_to_le_bytes(b.len() as u64);
    let ta = table_bytes(a);
    let tb = table_bytes(b);
    assert forall|i: int| 0 <= i < 8 implies ca[i] == cb[i] by {
        assert(bytes.subrange(0, ta.len() as int)[i] == ta[i]);
        assert(bytes.subrange(0, tb.len() as int)[i] == tb[i]);
    }
    assert(ca =~= cb);
    assert(spec_u64_from_le_bytes(ca) == a.len() as u64);
    assert(spec_u64_from_le_bytes(cb) == b.len() as u64);
    assert(a.len() == b.len());
    let xa = entries_bytes(a);
    let xb = entries_bytes(b);
    assert(bytes.subrange(8, 8 + xa.len() as int) =~= xa) by {
        assert forall|i: int| 0 <= i < xa.len() implies bytes[8 + i] == xa[i] by {
            assert(bytes.subrange(0, ta.len() as int)[8 + i] == ta[8 + i]);
        }
    }
    assert(bytes.subrange(8, 8 + xb.len() as int) =~= xb) by {
        assert forall|i: int| 0 <= i < xb.len() implies bytes[8 + i] == xb[i] by {
            assert(bytes.subrange(0, tb.len() as int)[8 + i] == tb[8 + i]);
        }
    }
    lemma_entries_unique(a, b, bytes, 8);
}

/// The entries at the front of bytes are those whose bytes stand there.
pub proof fn lemma_parsed_entries(bytes: Seq<u8>, entries: Seq<(u8, Seq<u8>)>)
    requires
        begins_with_table(bytes, entries),
    ensures
        parsed_entries(bytes) == Some(entries),
{
    let chosen = choose|chosen: Seq<(u8, Seq<u8>)>| begins_with_table(bytes, chosen);
    lemma_table_unique(bytes, chosen, entries);
}

/// A text that was made from a code stands for that code.
pub proof fn lemma_text_of_code(code: Seq<bool>)
    ensures
        is_code_text(code_text(code)),
        text_code(code_text(code)) == code,
        code_text(code).len() == code.len(),
{
    assert(text_code(code_text(code)) =~= code);
}

/// The entries written for a table describe that table.
proof fn lemma_table_entries(codes: Map<u8, Seq<bool>>, bound: nat)
    requires
        bound <= 256,
        forall|symbol: u8| codes.contains_key(symbol) ==> codes[symbol].len() <= u64::MAX,
    ensures
        entries_table(table_entries(codes, bound)) == Some(codes_under(codes, bound)),
        fits(table_entries(codes, bound)),
        table_entries(codes, bound).len() <= bound,
    decreases bound,
{
    if bound == 0 {
        assert(codes_under(codes, bound) =~= Map::empty());
    } else {
        let symbol = (bound - 1) as u8;
        let before = table_entries(codes, (bound - 1) as nat);
        lemma_table_entries(codes, (bound - 1) as nat);
        if codes.contains_key(symbol) {
            let entry = (symbol, code_text(codes[symbol]));
            lemma_text_of_code(codes[symbol]);
            assert(before.push(entry).drop_last() =~= before);
            assert(before.push(entry).last() == entry);
            assert(codes_under(codes, bound) =~= codes_under(codes, (bound - 1) as nat).insert(
                symbol,
                codes[symbol],
            ));
        } else {
            assert(codes_under(codes, bound) =~= codes_under(codes, (bound - 1) as nat));
        }
    }
}

/// A code table that is written out and read back, whatever bytes follow it,
/// is the same table, and the reader knows where it ended.
pub proof fn lemma_table_round_trip(codes: Map<u8, Seq<bool>>, rest: Seq<u8>)
    requires
        forall|symbol: u8| codes.contains_key(symbol) ==> codes[symbol].len() <= u64::MAX,
    ensures
        parsed_table(serialized_table(codes) + rest) == Some(
            (codes, serialized_table(codes).len()),
        ),
{
    let entries = table_entries(codes, 256);
    let bytes = serialized_table(codes) + rest;
    lemma_table_entries(codes, 256);
    assert(codes_under(codes, 256) =~= codes);
    assert(bytes.subrange(0, serialized_table(codes).len() as int) =~= serialized_table(codes));
    lemma_parsed_entries(bytes, entries);
}

/// A row of entries describes no table once its beginning describes none.
proof fn lemma_no_table(entries: Seq<(u8, Seq<u8>)>, i: int)
    requires
        0 <= i <= entries.len(),
        entries_table(entries.take(i)) is None,
    ensures
        entries_table(entries) is None,
    decreases entries.len() - i,
{
    if i < entries.len() {
        assert(entries.take(i + 1).drop_last() =~= entries.take(i));
        lemma_no_table(entries, i + 1);
    } else {
        assert(entries.take(i) =~= entries);
    }
}

/// The text of a code.
fn text_of_code(code: &Vec<bool>) -> (text: Vec<u8>)
    ensures
        text@ == code_text(code@),
{
    let mut text: Vec<u8> = Vec::new();
    let mut i: usize = 0;
    while i < code.len()
        invariant
            i <= code.len(),
            text@ == code_text(code@.take(i as int)),
        decreases code.len() - i,
    {
        text.push(if code[i] { 49u8 } else { 48u8 });
        assert(text@ =~= code_text(code@.take(i + 1)));
        i = i + 1;
    }
    assert(code@.take(i as int) =~= code@);
    text
}

/// The code that a text stands for, if it holds `0` and `1` only.
fn code_of_text(text: &Vec<u8>) -> (code: Option<Vec<bool>>)
    ensures
        match code {
            Some(code) => is_code_text(text@) && code@ == text_code(text@),
            None => !is_code_text(text@),
        },
{
    let mut code: Vec<bool> = Vec::new();
    let mut i: usize = 0;
    while i < text.len()
        invariant
            i <= text.len(),
            is_code_text(text@.take(i as int)),
            code@ == text_code(text@.take(i as int)),
        decreases text.len() - i,
    {
        let c: u8 = text[i];
        if c != 48u8 && c != 49u8 {
            return None;
        }
        code.push(c == 49u8);
        assert(code@ =~= text_code(text@.take(i + 1)));
        i = i + 1;
    }
    assert(text@.take(i as int) =~= text@);
    Some(code)
}

/// Writes a code table out: the number of entries, then for each byte value that
/// has a code, in ascending order, the byte value, the length of its code and
/// the code as a text of the characters `0` and `1`. This is the form that the
/// serializer gives a map from bytes to such texts. Every table is written, and
/// what is written is read back by `deserialize_codes` as the same table.
pub fn serialize_codes(codes: &HashMap<u8, Vec<bool>>) -> (result: Result<Vec<u8>, CodecError>)
    ensures
        result is Ok,
        result matches Ok(bytes) ==> {
            &&& bytes@ == serialized_table(code_map(codes@))
            &&& parsed_table(bytes@) == Some((code_map(codes@), bytes@.len()))
        },
{
    proof {
        let table = code_map(codes@);
        assert forall|symbol: u8| table.contains_key(symbol) implies table[symbol].len()
            <= u64::MAX by {
            assert(codes@[symbol]@.len() == codes@[symbol].len());
        }
        lemma_table_round_trip(table, Seq::empty());
        assert(serialized_table(table) + Seq::<u8>::empty() =~= serialized_table(table));
    }
    let mut entries: Vec<(u8, Vec<u8>)> = Vec::new();
    let mut symbol: usize = 0;
    while symbol < 256
        invariant
            symbol <= 256,
            entries_view(entries@) == table_entries(code_map(codes@), symbol as nat),
        decreases 256 - symbol,
    {
        let byte: u8 = symbol as u8;
        let ghost before = entries_view(entries@);
        match codes.get(&byte) {
            Some(code) => {
                let text = text_of_code(code);
                entries.push((byte, text));
                assert(entries_view(entries@) =~= before.push((byte, code_text(code@))));
            },
            None => {},
        }
        symbol = symbol + 1;
    }
    match write_entries(&entries) {
        Ok(bytes) => Ok(bytes),
        Err(_) => Err(CodecError::Serialization),
    }
}

/// Reads the code table at the front of `bytes`, and says how many bytes it takes.
///
/// The table is refused where the bytes end inside it, where a byte value has
/// two entries, and where a code's text holds another character than `0` and `1`.
pub fn deserialize_codes(bytes: &[u8]) -> (result: Result<
    (HashMap<u8, Vec<bool>>, usize),
    CodecError,
>)
    ensures
        match result {
            Ok((codes, used)) => {
                &&& parsed_table(bytes@) == Some((code_map(codes@), used as nat))
                &&& used <= bytes@.len()
            },
            Err(e) => e == CodecError::MalformedTable && parsed_table(bytes@) is None,
        },
{
    let entries = match read_entries(bytes) {
        Ok(entries) => entries,
        Err(_) => {
            return Err(CodecError::MalformedTable);
        },
    };
    let ghost rows = entries_view(entries@);
    proof {
        lemma_auto_spec_u64_to_from_le_bytes();
        assert forall|k: int| 0 <= k < rows.len() implies (#[trigger] rows[k]).1.len()
            <= u64::MAX by {
            assert(rows[k].1 == entries@[k].1@);
            assert(entries@[k].1@.len() == entries@[k].1.len());
        }
        assert(fits(rows));
        lemma_parsed_entries(bytes@, rows);
    }
    let mut codes: HashMap<u8, Vec<bool>> = HashMap::new();
    let mut used: usize = 8;
    let mut i: usize = 0;
    assert(rows.take(0) =~= Seq::empty());
    assert(code_map(codes@) =~= Map::empty());
    while i < entries.len()
        invariant
            i <= entries.len(),
            rows == entries_view(entries@),
            table_bytes(rows).is_prefix_of(bytes@),
            parsed_entries(bytes@) == Some(rows),
            entries_table(rows.take(i as int)) == Some(code_map(codes@)),
            used == 8 + entries_bytes(rows.take(i as int)).len(),
        decreases entries.len() - i,
    {
        let symbol: u8 = entries[i].0;
        let ghost seen = rows.take(i as int);
        let ghost next = rows.take(i + 1);
        proof {
            lemma_auto_spec_u64_to_from_le_bytes();
            assert(next.drop_last() =~= seen);
            assert(next.last() == rows[i as int]);
            let one = seq![rows[i as int]];
            assert(next =~= seen + one);
            lemma_entries_bytes_joined(seen, one);
            assert(one.skip(1) =~= Seq::<(u8, Seq<u8>)>::empty());
            assert(entries_bytes(one.skip(1)) =~= Seq::<u8>::empty());
            assert(entries_bytes(one) =~= entry_bytes(rows[i as int]));
            lemma_entry_len(rows[i as int]);
            assert(rows =~= next + rows.skip(i + 1));
            lemma_entries_bytes_joined(next, rows.skip(i + 1));
            assert(table_bytes(rows).len() == 8 + entries_bytes(rows).len());
            assert(entries_bytes(rows).len() >= entries_bytes(next).len());
            assert(entries_bytes(next).len() == entries_bytes(seen).len() + 9 + rows[i as int].1.len());
            assert(rows[i as int].1 == entries@[i as int].1@);
            assert(bytes@.len() == bytes.len());
        }
        if codes.contains_key(&symbol) {
            proof {
                lemma_no_table(rows, i + 1);
            }
            return Err(CodecError::MalformedTable);
        }
        match code_of_text(&entries[i].1) {
            Some(code) => {
                used = used + 9 + entries[i].1.len();
                codes.insert(symbol, code);
                assert(code_map(codes@) =~= entries_table(seen).unwrap().insert(
                    symbol,
                    text_code(rows[i as int].1),
                ));
            },
            None => {
                proof {
                    lemma_no_table(rows, i + 1);
                }
                return Err(CodecError::MalformedTable);
            },
        }
        i = i + 1;
    }
    assert(rows.take(i as int) =~= rows);
    proof {
        lemma_auto_spec_u64_to_from_le_bytes();
    }
    Ok((codes, used))
}

} // verus!
