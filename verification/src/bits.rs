use vstd::prelude::*;

verus! {

/// The number a single bit stands for.
pub open spec fn bit_weight(b: bool) -> nat {
    if b { 1 } else { 0 }
}

/// Bit `k` of a bit string that is followed by zeros without end.
pub open spec fn bit_at(bits: Seq<bool>, k: int) -> bool {
    0 <= k < bits.len() && bits[k]
}

/// Two to the power `n`.
pub open spec fn two_to(n: nat) -> nat
    decreases n,
{
    if n == 0 { 1 } else { 2 * two_to((n - 1) as nat) }
}

/// The number written by the `count` bits of `bits` that begin at `start`,
/// most significant bit first.
pub open spec fn window_value(bits: Seq<bool>, start: int, count: nat) -> nat
    decreases count,
{
    if count == 0 {
        0
    } else {
        2 * window_value(bits, start, (count - 1) as nat) + bit_weight(
            bit_at(bits, start + count - 1),
        )
    }
}

/// Byte `i` of the packed form of `bits`: the number that bits `8 * i` to
/// `8 * i + 7` write.
pub open spec fn byte_at(bits: Seq<bool>, i: int) -> nat {
    window_value(bits, 8 * i, 8)
}

/// The bytes that hold `bits`, eight to a byte and most significant bit first;
/// the last byte is filled up with zero bits.
pub open spec fn packed(bits: Seq<bool>) -> Seq<u8> {
    Seq::new(((bits.len() + 7) / 8) as nat, |i: int| byte_at(bits, i) as u8)
}

/// The value of binary digit `j` of a byte, digit 0 being the most significant.
pub open spec fn place(j: int) -> int {
    if j == 0 { 128 } else if j == 1 { 64 } else if j == 2 { 32 } else if j == 3 { 16 }
    else if j == 4 { 8 } else if j == 5 { 4 } else if j == 6 { 2 } else { 1 }
}

/// Binary digit `j` of `byte`, digit 0 being the most significant.
pub open spec fn bit_of(byte: u8, j: int) -> bool {
    (byte as int / place(j)) % 2 == 1
}

/// The eight binary digits of a byte, most significant first.
pub open spec fn byte_bits(byte: u8) -> Seq<bool> {
    Seq::new(8, |j: int| bit_of(byte, j))
}

/// The bits of a byte string, eight for each byte.
pub open spec fn unpacked(bytes: Seq<u8>) -> Seq<bool> {
    Seq::new(8 * bytes.len(), |k: int| bit_of(bytes[k / 8], k % 8))
}

/// A window of `count` bits is a number below two to the `count`.
pub proof fn lemma_window_bound(bits: Seq<bool>, start: int, count: nat)
    ensures
        window_value(bits, start, count) < two_to(count),
    decreases count,
{
    if count > 0 {
        lemma_window_bound(bits, start, (count - 1) as nat);
    }
}

/// A window's value depends on the bits inside the window only.
pub proof fn lemma_window_agree(a: Seq<bool>, b: Seq<bool>, start: int, count: nat)
    requires
        forall|k: int| start <= k < start + count ==> bit_at(a, k) == bit_at(b, k),
    ensures
        window_value(a, start, count) == window_value(b, start, count),
    decreases count,
{
    if count > 0 {
        lemma_window_agree(a, b, start, (count - 1) as nat);
    }
}

/// Bits past the end of the string shift the window's value to the left.
pub proof fn lemma_window_padding(bits: Seq<bool>, start: int, have: nat, extra: nat)
    requires
        start + have >= bits.len(),
    ensures
        window_value(bits, start, have + extra) == window_value(bits, start, have) * two_to(extra),
    decreases extra,
{
    let value = window_value(bits, start, have);
    if extra > 0 {
        lemma_window_padding(bits, start, have, (extra - 1) as nat);
        assert(window_value(bits, start, have + extra) == 2 * window_value(
            bits,
            start,
            (have + extra - 1) as nat,
        ));
        assert(2 * (value * two_to((extra - 1) as nat)) == value * two_to(extra))
            by (nonlinear_arith)
            requires
                two_to(extra) == 2 * two_to((extra - 1) as nat),
        ;
    } else {
        assert(value * two_to(0) == value) by (nonlinear_arith)
            requires
                two_to(0) == 1,
        ;
    }
}

/// Digit `j` of the byte that a window of eight bits writes is bit `j` of the window.
pub proof fn lemma_bit_of_window(bits: Seq<bool>, start: int, j: int)
    requires
        0 <= j < 8,
    ensures
        window_value(bits, start, 8) < 256,
        bit_of(window_value(bits, start, 8) as u8, j) == bit_at(bits, start + j),
{
    reveal_with_fuel(window_value, 9);
    let v0 = bit_weight(bit_at(bits, start));
    let v1 = bit_weight(bit_at(bits, start + 1));
    let v2 = bit_weight(bit_at(bits, start + 2));
    let v3 = bit_weight(bit_at(bits, start + 3));
    let v4 = bit_weight(bit_at(bits, start + 4));
    let v5 = bit_weight(bit_at(bits, start + 5));
    let v6 = bit_weight(bit_at(bits, start + 6));
    let v7 = bit_weight(bit_at(bits, start + 7));
    let v = window_value(bits, start, 8);
    assert(v == 128 * v0 + 64 * v1 + 32 * v2 + 16 * v3 + 8 * v4 + 4 * v5 + 2 * v6 + v7);
    if j == 0 {
        assert((v / 128) % 2 == v0);
    } else if j == 1 {
        assert((v / 64) % 2 == v1);
    } else if j == 2 {
        assert((v / 32) % 2 == v2);
    } else if j == 3 {
        assert((v / 16) % 2 == v3);
    } else if j == 4 {
        assert((v / 8) % 2 == v4);
    } else if j == 5 {
        assert((v / 4) % 2 == v5);
    } else if j == 6 {
        assert((v / 2) % 2 == v6);
    } else {
        assert((v / 1) % 2 == v7);
    }
}

/// Unpacking packed bits gives the bits back, followed by the zero bits of the padding.
pub proof fn lemma_unpacked_packed(bits: Seq<bool>)
    ensures
        unpacked(packed(bits)).len() == 8 * ((bits.len() + 7) / 8),
        forall|k: int|
            0 <= k < unpacked(packed(bits)).len() ==> #[trigger] unpacked(packed(bits))[k]
                == bit_at(bits, k),
{
    assert forall|k: int| 0 <= k < unpacked(packed(bits)).len() implies #[trigger] unpacked(
        packed(bits),
    )[k] == bit_at(bits, k) by {
        lemma_bit_of_window(bits, 8 * (k / 8), k % 8);
    }
}

/// Collects bits into bytes, eight to a byte and most significant bit first.
pub struct BitPacker {
    bytes: Vec<u8>,
    current: u8,
    filled: u8,
    bits: Ghost<Seq<bool>>,
}

impl View for BitPacker {
    type V = Seq<bool>;

    /// The bits pushed so far.
    closed spec fn view(&self) -> Seq<bool> {
        self.bits@
    }
}

impl BitPacker {
    /// The bytes and the unfinished byte hold exactly the bits pushed.
    pub closed spec fn well_formed(&self) -> bool {
        &&& self.filled < 8
        &&& self.bits@.len() == 8 * self.bytes@.len() + self.filled
        &&& self.bytes@ == packed(self.bits@.take(8 * self.bytes@.len() as int))
        &&& self.current == window_value(
            self.bits@,
            8 * self.bytes@.len() as int,
            self.filled as nat,
        )
    }

    /// A packer that holds no bit.
    pub fn new() -> (p: Self)
        ensures
            p.well_formed(),
            p@ == Seq::<bool>::empty(),
    {
        let p = BitPacker { bytes: Vec::new(), current: 0, filled: 0, bits: Ghost(Seq::empty()) };
        assert(p.bytes@ =~= packed(p.bits@.take(0)));
        p
    }

    /// Appends one bit.
    pub fn push(&mut self, bit: bool)
        requires
            old(self).well_formed(),
        ensures
            final(self).well_formed(),
            final(self)@ == old(self)@.push(bit),
    {
        let ghost before = self.bits@;
        let ghost after = before.push(bit);
        let ghost m = self.bytes@.len() as int;
        let b: u8 = if bit { 1 } else { 0 };
        proof {
            lemma_window_bound(before, 8 * m, self.filled as nat);
            reveal_with_fuel(two_to, 9);
            lemma_window_agree(before, after, 8 * m, self.filled as nat);
        }
        let cur: u8 = self.current;
        assert(((cur << 1) | b) == 2 * cur + b) by (bit_vector)
            requires
                cur < 128,
                b <= 1,
        ;
        let next: u8 = (cur << 1) | b;
        assert(next == window_value(after, 8 * m, (self.filled + 1) as nat));
        if self.filled == 7 {
            proof {
                assert forall|i: int| 0 <= i < m implies #[trigger] byte_at(after, i) == byte_at(
                    before.take(8 * m),
                    i,
                ) by {
                    lemma_window_agree(after, before.take(8 * m), 8 * i, 8);
                }
                assert(after.take(8 * (m + 1)) =~= after);
                assert(self.bytes@.push(next) =~= packed(after));
            }
            self.bytes.push(next);
            self.current = 0;
            self.filled = 0;
        } else {
            proof {
                assert(after.take(8 * m) =~= before.take(8 * m));
            }
            self.current = next;
            self.filled = self.filled + 1;
        }
        self.bits = Ghost(after);
    }

    /// The bytes that hold the bits pushed, the last one filled up with zero bits.
    pub fn finish(self) -> (out: Vec<u8>)
        requires
            self.well_formed(),
        ensures
            out@ == packed(self@),
    {
        let ghost bits = self.bits@;
        let ghost m = self.bytes@.len() as int;
        let mut out = self.bytes;
        if self.filled > 0 {
            let cur: u8 = self.current;
            let shift: u8 = 8 - self.filled;
            proof {
                lemma_window_bound(bits, 8 * m, self.filled as nat);
                lemma_window_padding(bits, 8 * m, self.filled as nat, shift as nat);
                reveal_with_fuel(two_to, 9);
            }
            assert((cur << shift) == cur * two_to(shift as nat)) by {
                lemma_shift_left(cur, shift);
            }
            let last: u8 = cur << shift;
            proof {
                assert forall|i: int| 0 <= i < m implies #[trigger] byte_at(bits, i) == byte_at(
                    bits.take(8 * m),
                    i,
                ) by {
                    lemma_window_agree(bits, bits.take(8 * m), 8 * i, 8);
                }
                assert(out@.push(last) =~= packed(bits));
            }
            out.push(last);
        } else {
            proof {
                assert(bits.take(8 * m) =~= bits);
            }
        }
        out
    }
}

/// Shifting a byte to the left multiplies it, as long as no set bit leaves it.
proof fn lemma_shift_left(x: u8, s: u8)
    requires
        1 <= s <= 7,
        x < two_to((8 - s) as nat),
    ensures
        (x << s) == x * two_to(s as nat),
{
    reveal_with_fuel(two_to, 9);
    assert(two_to(1) == 2 && two_to(2) == 4 && two_to(3) == 8 && two_to(4) == 16 && two_to(5) == 32
        && two_to(6) == 64 && two_to(7) == 128);
    if s == 1 {
        assert((x << 1u8) == x * 2) by (bit_vector)
            requires
                x * 2 < 256,
        ;
    } else if s == 2 {
        assert((x << 2u8) == x * 4) by (bit_vector)
            requires
                x * 4 < 256,
        ;
    } else if s == 3 {
        assert((x << 3u8) == x * 8) by (bit_vector)
            requires
                x * 8 < 256,
        ;
    } else if s == 4 {
        assert((x << 4u8) == x * 16) by (bit_vector)
            requires
                x * 16 < 256,
        ;
    } else if s == 5 {
        assert((x << 5u8) == x * 32) by (bit_vector)
            requires
                x * 32 < 256,
        ;
    } else if s == 6 {
        assert((x << 6u8) == x * 64) by (bit_vector)
            requires
                x * 64 < 256,
        ;
    } else {
        assert((x << 7u8) == x * 128) by (bit_vector)
            requires
                x * 128 < 256,
        ;
    }
}

/// Packs a bit string into bytes, most significant bit first, and fills the last
/// byte up with zero bits.
pub fn convert_bits_to_bytes(bits: &[bool]) -> (bytes: Vec<u8>)
    ensures
        bytes@ == packed(bits@),
{
    let mut packer = BitPacker::new();
    let mut i: usize = 0;
    while i < bits.len()
        invariant
            i <= bits.len(),
            packer.well_formed(),
            packer@ == bits@.take(i as int),
        decreases bits.len() - i,
    {
        packer.push(bits[i]);
        assert(bits@.take(i as int).push(bits@[i as int]) =~= bits@.take(i + 1));
        i = i + 1;
    }
    assert(bits@.take(i as int) =~= bits@);
    packer.finish()
}

/// The eight bits of a byte, most significant first.
pub fn byte_to_bits(byte: u8) -> (bits: Vec<bool>)
    ensures
        bits@ == byte_bits(byte),
{
    let mut bits: Vec<bool> = Vec::new();
    let mut j: u8 = 0;
    while j < 8
        invariant
            j <= 8,
            bits@.len() == j,
            forall|k: int| 0 <= k < j ==> bits@[k] == bit_of(byte, k),
        decreases 8 - j,
    {
        let mask: u8 = 0x80u8 >> j;
        let bit: bool = (byte & mask) != 0;
        assert(bit == bit_of(byte, j as int)) by {
            lemma_mask_digit(byte, j);
        }
        bits.push(bit);
        j = j + 1;
    }
    assert(bits@ =~= byte_bits(byte));
    bits
}

/// Masking with a single bit tests the binary digit at that place.
proof fn lemma_mask_digit(byte: u8, j: u8)
    requires
        j < 8,
    ensures
        ((byte & (0x80u8 >> j)) != 0) == bit_of(byte, j as int),
{
    if j == 0 {
        assert(((byte & (0x80u8 >> 0u8)) != 0) == ((byte / 128) % 2 == 1)) by (bit_vector);
    } else if j == 1 {
        assert(((byte & (0x80u8 >> 1u8)) != 0) == ((byte / 64) % 2 == 1)) by (bit_vector);
    } else if j == 2 {
        assert(((byte & (0x80u8 >> 2u8)) != 0) == ((byte / 32) % 2 == 1)) by (bit_vector);
    } else if j == 3 {
        assert(((byte & (0x80u8 >> 3u8)) != 0) == ((byte / 16) % 2 == 1)) by (bit_vector);
    } else if j == 4 {
        assert(((byte & (0x80u8 >> 4u8)) != 0) == ((byte / 8) % 2 == 1)) by (bit_vector);
    } else if j == 5 {
        assert(((byte & (0x80u8 >> 5u8)) != 0) == ((byte / 4) % 2 == 1)) by (bit_vector);
    } else if j == 6 {
        assert(((byte & (0x80u8 >> 6u8)) != 0) == ((byte / 2) % 2 == 1)) by (bit_vector);
    } else {
        assert(((byte & (0x80u8 >> 7u8)) != 0) == ((byte / 1) % 2 == 1)) by (bit_vector);
    }
}

} // verus!
