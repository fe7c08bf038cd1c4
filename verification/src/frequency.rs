use std::collections::HashMap;
use vstd::prelude::*;

verus! {

broadcast use vstd::std_specs::hash::group_hash_axioms;

/// How often `byte` occurs in `data`.
pub open spec fn occurrences(data: Seq<u8>, byte: u8) -> nat
    decreases data.len(),
{
    if data.len() == 0 {
        0
    } else {
        occurrences(data.drop_last(), byte) + if data.last() == byte { 1nat } else { 0nat }
    }
}

/// The frequency table of `data`: an entry for each byte value that occurs, with
/// the number of its occurrences.
pub open spec fn frequencies(data: Seq<u8>) -> Map<u8, usize> {
    Map::new(|byte: u8| occurrences(data, byte) > 0, |byte: u8| occurrences(data, byte) as usize)
}

/// The count that a frequency table gives a byte value: zero without an entry.
pub open spec fn count_of(table: Map<u8, usize>, byte: u8) -> nat {
    if table.contains_key(byte) { table[byte] as nat } else { 0 }
}

/// The sum of the counts of the byte values below `bound`.
pub open spec fn total_below(table: Map<u8, usize>, bound: nat) -> nat
    decreases bound,
{
    if bound == 0 {
        0
    } else {
        total_below(table, (bound - 1) as nat) + count_of(table, (bound - 1) as u8)
    }
}

/// The sum of all counts of a frequency table.
pub open spec fn total_count(table: Map<u8, usize>) -> nat {
    total_below(table, 256)
}

/// A byte value occurs no more often than the data is long.
pub proof fn lemma_occurrences_bound(data: Seq<u8>, byte: u8)
    ensures
        occurrences(data, byte) <= data.len(),
        occurrences(data, byte) > 0 <==> data.contains(byte),
    decreases data.len(),
{
    if data.len() > 0 {
        lemma_occurrences_bound(data.drop_last(), byte);
        if data.contains(byte) {
            let i = choose|i: int| 0 <= i < data.len() && data[i] == byte;
            if i < data.len() - 1 {
                assert(data.drop_last()[i] == byte);
            }
        }
        if data.drop_last().contains(byte) {
            let i = choose|i: int| 0 <= i < data.drop_last().len() && data.drop_last()[i] == byte;
            assert(data[i] == byte);
        }
    }
}

/// Raising one count by one raises the sum by one.
proof fn lemma_total_step(before: Map<u8, usize>, after: Map<u8, usize>, byte: u8, bound: nat)
    requires
        bound <= 256,
        count_of(after, byte) == count_of(before, byte) + 1,
        forall|other: u8| other != byte ==> count_of(after, other) == count_of(before, other),
    ensures
        total_below(after, bound) == total_below(before, bound) + if byte < bound { 1nat } else {
            0nat
        },
    decreases bound,
{
    if bound > 0 {
        lemma_total_step(before, after, byte, (bound - 1) as nat);
    }
}

/// The counts of a buffer's frequency table add up to the buffer's length.
pub proof fn lemma_total_is_length(data: Seq<u8>)
    requires
        data.len() <= usize::MAX,
    ensures
        total_count(frequencies(data)) == data.len(),
    decreases data.len(),
{
    if data.len() == 0 {
        lemma_total_zero(frequencies(data), 256);
    } else {
        let shorter = data.drop_last();
        lemma_total_is_length(shorter);
        lemma_occurrences_bound(data, data.last());
        lemma_occurrences_bound(shorter, data.last());
        assert forall|other: u8| other != data.last() implies count_of(frequencies(data), other)
            == count_of(frequencies(shorter), other) by {
            lemma_occurrences_bound(data, other);
            lemma_occurrences_bound(shorter, other);
        }
        lemma_total_step(frequencies(shorter), frequencies(data), data.last(), 256);
    }
}

/// A table without entries has the sum zero.
proof fn lemma_total_zero(table: Map<u8, usize>, bound: nat)
    requires
        forall|byte: u8| !table.contains_key(byte),
    ensures
        total_below(table, bound) == 0,
    decreases bound,
{
    if bound > 0 {
        lemma_total_zero(table, (bound - 1) as nat);
    }
}

/// Counts the occurrences of each byte value in `data`.
pub fn count_frequencies(data: &[u8]) -> (table: HashMap<u8, usize>)
    ensures
        table@ == frequencies(data@),
{
    let mut table: HashMap<u8, usize> = HashMap::new();
    let mut i: usize = 0;
    assert(table@ =~= frequencies(data@.take(0)));
    while i < data.len()
        invariant
            i <= data.len(),
            table@ == frequencies(data@.take(i as int)),
        decreases data.len() - i,
    {
        let byte: u8 = data[i];
        let ghost seen = data@.take(i as int);
        let ghost next = data@.take(i + 1);
        proof {
            assert(next.drop_last() =~= seen);
            lemma_occurrences_bound(seen, byte);
            lemma_occurrences_bound(next, byte);
        }
        let count: usize = match table.get(&byte) {
            Some(count) => *count,
            None => 0,
        };
        table.insert(byte, count + 1);
        assert(table@ =~= frequencies(next));
        i = i + 1;
    }
    assert(data@.take(i as int) =~= data@);
    table
}

} // verus!
