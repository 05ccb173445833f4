//! Bit-level input and output, most significant bit first.

use vstd::arithmetic::div_mod::lemma_div_denominator;
use vstd::arithmetic::mul::lemma_mul_is_commutative;
use vstd::arithmetic::power2::{lemma2_to64, lemma_pow2_pos, lemma_pow2_unfold, pow2};
use vstd::bits::{lemma_u32_shr_is_div, lemma_u8_shr_is_div};
use vstd::prelude::*;

verus! {

/// Bit `i` of `b`, where bit 0 is the most significant one.
pub open spec fn bit_of(b: u8, i: int) -> bool {
    (b >> ((7 - i) as u8)) & 1u8 != 0
}

/// The bits of a byte string in reading order.
pub open spec fn bits_of(bytes: Seq<u8>) -> Seq<bool> {
    Seq::new(8 * bytes.len(), |k: int| bit_of(bytes[k / 8], k % 8))
}

/// Bit `k` of a stream; every position past the end holds a zero bit.
pub open spec fn bit_at(s: Seq<bool>, k: int) -> bool {
    0 <= k < s.len() && s[k]
}

/// What is left of a stream once `n` bits are consumed; an exhausted stream stays exhausted.
pub open spec fn advance(s: Seq<bool>, n: nat) -> Seq<bool> {
    if n <= s.len() {
        s.skip(n as int)
    } else {
        Seq::empty()
    }
}

/// The number written in binary by the first `n` bits of a stream.
pub open spec fn bits_value(s: Seq<bool>, n: nat) -> nat
    decreases n,
{
    if n == 0 {
        0
    } else {
        2 * bits_value(s, (n - 1) as nat) + if bit_at(s, n - 1) {
            1nat
        } else {
            0nat
        }
    }
}

/// The `n` low binary digits of `value`, most significant digit first.
pub open spec fn binary_digits(value: nat, n: nat) -> Seq<bool>
    decreases n,
{
    if n == 0 {
        Seq::empty()
    } else {
        binary_digits(value / 2, (n - 1) as nat).push(value % 2 == 1)
    }
}

/// `n` zero bits.
pub open spec fn zero_bits(n: nat) -> Seq<bool> {
    Seq::new(n, |i: int| false)
}

/// The weight of bit `k` of a stream inside its byte: `weight` if it is set, else 0.
pub open spec fn weighted(s: Seq<bool>, k: int, weight: int) -> int {
    if bit_at(s, k) {
        weight
    } else {
        0
    }
}

/// The byte made of the eight bits of `s` that start at bit `at`.
pub open spec fn byte_at(s: Seq<bool>, at: int) -> u8 {
    (weighted(s, at, 128) + weighted(s, at + 1, 64) + weighted(s, at + 2, 32) + weighted(
        s,
        at + 3,
        16,
    ) + weighted(s, at + 4, 8) + weighted(s, at + 5, 4) + weighted(s, at + 6, 2) + weighted(
        s,
        at + 7,
        1,
    )) as u8
}

/// Packs a bit string into bytes; the last byte is filled up with zero bits.
pub open spec fn pack_bits(s: Seq<bool>) -> Seq<u8> {
    Seq::new(((s.len() + 7) / 8) as nat, |i: int| byte_at(s, 8 * i))
}

/// A byte is the sum of its weighted bits.
proof fn lemma_byte_from_bits(b: u8)
    ensures
        b == (if bit_of(b, 0) { 128int } else { 0 }) + (if bit_of(b, 1) { 64int } else { 0 })
            + (if bit_of(b, 2) { 32int } else { 0 }) + (if bit_of(b, 3) { 16int } else { 0 })
            + (if bit_of(b, 4) { 8int } else { 0 }) + (if bit_of(b, 5) { 4int } else { 0 })
            + (if bit_of(b, 6) { 2int } else { 0 }) + (if bit_of(b, 7) { 1int } else { 0 }),
{
    assert(b == (if (b >> 7u8) & 1u8 != 0 { 128u8 } else { 0u8 })
        + (if (b >> 6u8) & 1u8 != 0 { 64u8 } else { 0u8 })
        + (if (b >> 5u8) & 1u8 != 0 { 32u8 } else { 0u8 })
        + (if (b >> 4u8) & 1u8 != 0 { 16u8 } else { 0u8 })
        + (if (b >> 3u8) & 1u8 != 0 { 8u8 } else { 0u8 })
        + (if (b >> 2u8) & 1u8 != 0 { 4u8 } else { 0u8 })
        + (if (b >> 1u8) & 1u8 != 0 { 2u8 } else { 0u8 })
        + (if (b >> 0u8) & 1u8 != 0 { 1u8 } else { 0u8 })) by (bit_vector);
}

/// A byte whose bits are those of the stream from bit `at` on is the byte at `at`.
proof fn lemma_byte_at_bits(s: Seq<bool>, at: int, b: u8)
    requires
        forall|j: int| 0 <= j < 8 ==> #[trigger] bit_of(b, j) == bit_at(s, at + j),
    ensures
        byte_at(s, at) == b,
{
    lemma_byte_from_bits(b);
    assert(bit_of(b, 0) == bit_at(s, at + 0));
}

/// The bits of a byte assembled from eight chosen bits are those bits.
proof fn lemma_bits_of_sum(b0: bool, b1: bool, b2: bool, b3: bool, b4: bool, b5: bool, b6: bool, b7: bool)
    ensures
        ({
            let v = ((if b0 { 128int } else { 0 }) + (if b1 { 64int } else { 0 })
                + (if b2 { 32int } else { 0 }) + (if b3 { 16int } else { 0 })
                + (if b4 { 8int } else { 0 }) + (if b5 { 4int } else { 0 })
                + (if b6 { 2int } else { 0 }) + (if b7 { 1int } else { 0 })) as u8;
            &&& bit_of(v, 0) == b0
            &&& bit_of(v, 1) == b1
            &&& bit_of(v, 2) == b2
            &&& bit_of(v, 3) == b3
            &&& bit_of(v, 4) == b4
            &&& bit_of(v, 5) == b5
            &&& bit_of(v, 6) == b6
            &&& bit_of(v, 7) == b7
        }),
{
    let x = (if b0 { 128int } else { 0 }) + (if b1 { 64int } else { 0 })
        + (if b2 { 32int } else { 0 }) + (if b3 { 16int } else { 0 })
        + (if b4 { 8int } else { 0 }) + (if b5 { 4int } else { 0 })
        + (if b6 { 2int } else { 0 }) + (if b7 { 1int } else { 0 });
    let v = x as u8;
    assert(v == x);
    assert(((v >> 7u8) & 1u8 != 0) == b0 && ((v >> 6u8) & 1u8 != 0) == b1 && ((v >> 5u8) & 1u8
        != 0) == b2 && ((v >> 4u8) & 1u8 != 0) == b3 && ((v >> 3u8) & 1u8 != 0) == b4 && ((v
        >> 2u8) & 1u8 != 0) == b5 && ((v >> 1u8) & 1u8 != 0) == b6 && ((v >> 0u8) & 1u8 != 0)
        == b7) by (bit_vector)
        requires
            v == (if b0 { 128u8 } else { 0u8 }) + (if b1 { 64u8 } else { 0u8 })
                + (if b2 { 32u8 } else { 0u8 }) + (if b3 { 16u8 } else { 0u8 })
                + (if b4 { 8u8 } else { 0u8 }) + (if b5 { 4u8 } else { 0u8 })
                + (if b6 { 2u8 } else { 0u8 }) + (if b7 { 1u8 } else { 0u8 }),
    ;
}

/// Reading back packed bits yields the bits themselves, then the zero bits that fill the last
/// byte.
pub proof fn law_unpack_pack(s: Seq<bool>)
    ensures
        s.len() <= 8 * pack_bits(s).len() < s.len() + 8,
        bits_of(pack_bits(s)) == s + zero_bits((8 * pack_bits(s).len() - s.len()) as nat),
{
    let p = pack_bits(s);
    let padded = s + zero_bits((8 * p.len() - s.len()) as nat);
    assert forall|k: int| 0 <= k < 8 * p.len() implies bits_of(p)[k] == padded[k] by {
        let at = 8 * (k / 8);
        lemma_bits_of_sum(
            bit_at(s, at),
            bit_at(s, at + 1),
            bit_at(s, at + 2),
            bit_at(s, at + 3),
            bit_at(s, at + 4),
            bit_at(s, at + 5),
            bit_at(s, at + 6),
            bit_at(s, at + 7),
        );
        assert(p[k / 8] == byte_at(s, at));
    }
    assert(bits_of(p) =~= padded);
}

/// A bit string has eight bits for each byte, and bit `k` is the digit of weight `2^(7 - k % 8)` of
/// byte `k / 8`.
pub proof fn law_most_significant_first(bytes: Seq<u8>, k: int)
    requires
        0 <= k < 8 * bytes.len(),
    ensures
        bits_of(bytes).len() == 8 * bytes.len(),
        bits_of(bytes)[k] <==> (bytes[k / 8] as nat / pow2((7 - k % 8) as nat)) % 2 == 1,
{
    let b = bytes[k / 8];
    let up = (7 - k % 8) as u8;
    lemma_u8_shr_is_div(b, up);
    let high = b >> up;
    assert((high & 1u8 != 0) == (high % 2 == 1)) by (bit_vector);
}

/// Behind `n` bits the bit at place `k` is the one that was at place `n + k`; bits that the stream
/// lacks are zeros.
pub proof fn law_advance(s: Seq<bool>, n: nat, k: int)
    requires
        k >= 0,
    ensures
        advance(s, n).len() == if n < s.len() {
            s.len() - n
        } else {
            0
        },
        bit_at(advance(s, n), k) <==> n + k < s.len() && s[n + k],
{
}

/// Digit `j` of the `n` low binary digits of a number has the weight `2^(n - 1 - j)`.
pub proof fn law_binary_digit(value: nat, n: nat, j: int)
    requires
        0 <= j < n,
    ensures
        binary_digits(value, n).len() == n,
        binary_digits(value, n)[j] <==> (value / pow2((n - 1 - j) as nat)) % 2 == 1,
    decreases n,
{
    let m = (n - 1) as nat;
    lemma_digits_len(value / 2, m);
    lemma2_to64();
    if j < m {
        law_binary_digit(value / 2, m, j);
        let w = (m - 1 - j) as nat;
        lemma_pow2_pos(w);
        lemma_pow2_unfold((w + 1) as nat);
        lemma_div_denominator(value as int, 2, pow2(w) as int);
        assert(value / pow2((n - 1 - j) as nat) == value / 2 / pow2(w));
    } else {
        assert(value / pow2(0) == value);
    }
}

proof fn lemma_digits_len(value: nat, n: nat)
    ensures
        binary_digits(value, n).len() == n,
    decreases n,
{
    if n > 0 {
        lemma_digits_len(value / 2, (n - 1) as nat);
    }
}

/// The number that `n` bits write is below `2^n`, and its digit of weight `2^(n - 1 - j)` is bit
/// `j`; bits that the stream lacks count as zeros.
pub proof fn law_number_digit(s: Seq<bool>, n: nat, j: int)
    requires
        0 <= j < n,
    ensures
        bits_value(s, n) < pow2(n),
        (bits_value(s, n) / pow2((n - 1 - j) as nat)) % 2 == 1 <==> j < s.len() && s[j],
    decreases n,
{
    lemma_bits_value_bound(s, n);
    lemma2_to64();
    let m = (n - 1) as nat;
    let value = bits_value(s, n);
    if j < m {
        law_number_digit(s, m, j);
        let w = (m - 1 - j) as nat;
        lemma_pow2_pos(w);
        lemma_pow2_unfold((w + 1) as nat);
        lemma_div_denominator(value as int, 2, pow2(w) as int);
        assert(value / 2 == bits_value(s, m));
        assert(value / pow2((n - 1 - j) as nat) == value / 2 / pow2(w));
    } else {
        assert(value / pow2(0) == value);
    }
}

/// Packing the bits of a byte string yields the byte string.
pub proof fn law_pack_unpack(bytes: Seq<u8>)
    ensures
        pack_bits(bits_of(bytes)) == bytes,
{
    let s = bits_of(bytes);
    assert forall|i: int| 0 <= i < bytes.len() implies pack_bits(s)[i] == bytes[i] by {
        assert forall|j: int| 0 <= j < 8 implies #[trigger] bit_of(bytes[i], j) == bit_at(
            s,
            8 * i + j,
        ) by {
            assert((8 * i + j) / 8 == i && (8 * i + j) % 8 == j);
        }
        lemma_byte_at_bits(s, 8 * i, bytes[i]);
    }
    assert(pack_bits(s) =~= bytes);
}

/// The binary digits of `value`, read as a number, give `value` back.
pub proof fn law_digits_value(value: nat, n: nat, rest: Seq<bool>)
    requires
        value < pow2(n),
    ensures
        binary_digits(value, n).len() == n,
        bits_value(binary_digits(value, n) + rest, n) == value,
    decreases n,
{
    if n == 0 {
        lemma2_to64();
    } else {
        let m = (n - 1) as nat;
        lemma_pow2_unfold(n);
        let tail = seq![value % 2 == 1] + rest;
        law_digits_value(value / 2, m, tail);
        assert(binary_digits(value, n) + rest =~= binary_digits(value / 2, m) + tail);
    }
}

/// `n` bits write a number below `2^n`.
pub proof fn lemma_bits_value_bound(s: Seq<bool>, n: nat)
    ensures
        bits_value(s, n) < pow2(n),
    decreases n,
{
    lemma2_to64();
    if n > 0 {
        lemma_pow2_unfold(n);
        lemma_bits_value_bound(s, (n - 1) as nat);
    }
}

/// Reads bits from a byte slice, most significant bit first.
pub struct BitReader<'a> {
    data: &'a [u8],
    byte_idx: usize,
    bit_idx: u8,
}

impl<'a> View for BitReader<'a> {
    type V = Seq<bool>;

    /// The bits that are still to be read.
    closed spec fn view(&self) -> Seq<bool> {
        bits_of(self.data@).skip(8 * self.byte_idx + self.bit_idx)
    }
}

impl<'a> BitReader<'a> {
    /// The position lies inside the data, or exactly at its end.
    pub closed spec fn wf(self) -> bool {
        &&& self.byte_idx <= self.data@.len()
        &&& self.bit_idx < 8
        &&& self.byte_idx == self.data@.len() ==> self.bit_idx == 0
    }

    /// A reader at the first bit of `data`.
    pub fn new(data: &'a [u8]) -> (reader: Self)
        ensures
            reader.wf(),
            reader@ == bits_of(data@),
    {
        let reader = BitReader { data, byte_idx: 0, bit_idx: 0 };
        assert(reader@ =~= bits_of(data@));
        reader
    }

    /// Reads one bit; past the end of the data every bit reads as `false`.
    pub fn read_bit(&mut self) -> (bit: bool)
        requires
            old(self).wf(),
        ensures
            final(self).wf(),
            bit == bit_at(old(self)@, 0),
            final(self)@ == advance(old(self)@, 1),
    {
        if self.byte_idx >= self.data.len() {
            assert(self@ =~= Seq::<bool>::empty());
            return false;
        }
        let ghost at = 8 * self.byte_idx + self.bit_idx;
        assert(at / 8 == self.byte_idx && at % 8 == self.bit_idx as int);
        let bit = (self.data[self.byte_idx] >> (7 - self.bit_idx)) & 1 != 0;
        self.bit_idx = self.bit_idx + 1;
        if self.bit_idx >= 8 {
            self.bit_idx = 0;
            self.byte_idx = self.byte_idx + 1;
        }
        assert(self@ =~= old(self)@.skip(1));
        bit
    }

    /// Reads `count` bits as a number, most significant bit first; only the low 32 bits of the
    /// number are kept.
    pub fn read_bits(&mut self, count: u32) -> (value: u32)
        requires
            old(self).wf(),
        ensures
            final(self).wf(),
            value == bits_value(old(self)@, count as nat) % 0x1_0000_0000,
            final(self)@ == advance(old(self)@, count as nat),
    {
        let mut value: u32 = 0;
        let mut done: u32 = 0;
        assert(self@ =~= advance(old(self)@, 0));
        while done < count
            invariant
                done <= count,
                self.wf(),
                value == bits_value(old(self)@, done as nat) % 0x1_0000_0000,
                self@ == advance(old(self)@, done as nat),
            decreases count - done,
        {
            let ghost before = value;
            let bit: u32 = if self.read_bit() { 1 } else { 0 };
            assert((before << 1) | bit == (2 * before + bit) % 0x1_0000_0000) by (bit_vector)
                requires
                    bit <= 1,
            ;
            value = (value << 1) | bit;
            done = done + 1;
            assert(self@ =~= advance(old(self)@, done as nat));
        }
        value
    }
}

/// Writes bits into a byte vector, most significant bit first.
pub struct BitWriter {
    bytes: Vec<u8>,
    current: u8,
    bit_count: u8,
}

impl View for BitWriter {
    type V = Seq<bool>;

    /// The bits that have been written.
    closed spec fn view(&self) -> Seq<bool> {
        bits_of(self.bytes@) + Seq::new(
            self.bit_count as nat,
            |j: int| bit_of(self.current, 8 - self.bit_count + j),
        )
    }
}

impl BitWriter {
    /// The byte under construction holds fewer than eight bits, and none above them.
    pub closed spec fn wf(self) -> bool {
        &&& self.bit_count < 8
        &&& self.current >> self.bit_count == 0
    }

    /// A writer to which nothing has been written.
    pub fn new() -> (writer: Self)
        ensures
            writer.wf(),
            writer@ == Seq::<bool>::empty(),
    {
        let writer = BitWriter { bytes: Vec::new(), current: 0, bit_count: 0 };
        assert(0u8 >> 0u8 == 0) by (bit_vector);
        assert(writer@ =~= Seq::<bool>::empty());
        writer
    }

    /// Appends one bit.
    pub fn write_bit(&mut self, bit: bool)
        requires
            old(self).wf(),
        ensures
            final(self).wf(),
            final(self)@ == old(self)@.push(bit),
    {
        let ghost c = self.current;
        let ghost n = self.bit_count;
        let b: u8 = if bit { 1 } else { 0 };
        self.current = (self.current << 1) | b;
        self.bit_count = self.bit_count + 1;
        proof {
            let d = self.current;
            assert(((d >> 0u8) & 1u8 != 0) == (b == 1)) by (bit_vector)
                requires
                    d == (c << 1) | b,
                    b <= 1,
            ;
            let kept = Seq::new(n as nat, |j: int| bit_of(c, 8 - n + j));
            let moved = Seq::new((n + 1) as nat, |j: int| bit_of(d, 7 - n + j));
            assert forall|j: int| 0 <= j < n implies moved[j] == kept[j] by {
                let k = (n - 1 - j) as u8;
                let k1 = (n - j) as u8;
                assert((((c << 1) | b) >> k1) & 1 == (c >> k) & 1) by (bit_vector)
                    requires
                        k < 7,
                        k1 == k + 1,
                        b <= 1,
                ;
            }
            assert(moved =~= kept.push(bit));
            assert(d >> ((n + 1) as u8) == 0) by (bit_vector)
                requires
                    d == (c << 1) | b,
                    c >> n == 0,
                    n < 8,
                    b <= 1,
            ;
        }
        if self.bit_count >= 8 {
            self.bytes.push(self.current);
            self.current = 0;
            self.bit_count = 0;
            assert(0u8 >> 0u8 == 0) by (bit_vector);
            assert forall|k: int| 0 <= k < self@.len() implies self@[k] == old(self)@.push(bit)[k] by {
                if k < 8 * old(self).bytes@.len() {
                    assert(k / 8 < old(self).bytes@.len());
                } else {
                    assert(k / 8 == old(self).bytes@.len());
                }
            }
        }
        assert(self@ =~= old(self)@.push(bit));
    }

    /// Appends the `count` low bits of `value`, most significant bit first.
    pub fn write_bits(&mut self, value: u32, count: u32)
        requires
            old(self).wf(),
            count <= 32,
        ensures
            final(self).wf(),
            final(self)@ == old(self)@ + binary_digits(value as nat, count as nat),
    {
        let mut i: u32 = count;
        assert(self@ == old(self)@ + binary_digits((value as nat) / pow2(count as nat), 0)) by {
            lemma_pow2_pos(count as nat);
            assert(binary_digits((value as nat) / pow2(count as nat), 0) == Seq::<bool>::empty());
        }
        while i > 0
            invariant
                i <= count <= 32,
                self.wf(),
                self@ == old(self)@ + binary_digits((value as nat) / pow2(i as nat), (count - i) as nat),
            decreases i,
        {
            i = i - 1;
            let bit = (value >> i) & 1 != 0;
            proof {
                lemma_u32_shr_is_div(value, i);
                let high = value >> i;
                assert((high & 1 != 0) == (high % 2 == 1)) by (bit_vector);
                lemma_pow2_unfold((i + 1) as nat);
                lemma_pow2_pos(i as nat);
                lemma_div_denominator(value as int, pow2(i as nat) as int, 2);
                lemma_mul_is_commutative(pow2(i as nat) as int, 2);
            }
            self.write_bit(bit);
            assert(self@ =~= old(self)@ + binary_digits(
                (value as nat) / pow2(i as nat),
                (count - i) as nat,
            ));
        }
        proof {
            lemma2_to64();
            assert((value as nat) / pow2(0) == value as nat);
        }
    }

    /// The written bytes; zero bits fill up the last one.
    pub fn finish(self) -> (bytes: Vec<u8>)
        requires
            self.wf(),
        ensures
            bytes@ == pack_bits(self@),
    {
        let ghost bits = self@;
        let ghost old_bytes = self.bytes@;
        let mut bytes = self.bytes;
        if self.bit_count > 0 {
            let last: u8 = self.current << (8 - self.bit_count);
            bytes.push(last);
            proof {
                let c = self.current;
                let n = self.bit_count;
                assert forall|j: int| 0 <= j < 8 implies #[trigger] bit_of(last, j) == bit_at(
                    bits,
                    8 * old_bytes.len() + j,
                ) by {
                    let up = (7 - j) as u8;
                    let m = (8 - n) as u8;
                    if j < n {
                        let down = (n - 1 - j) as u8;
                        assert(((c << m) >> up) & 1 == (c >> down) & 1) by (bit_vector)
                            requires
                                0 < m < 8,
                                up < 8,
                                down == up - m,
                                up >= m,
                        ;
                    } else {
                        assert(((c << m) >> up) & 1 == 0) by (bit_vector)
                            requires
                                0 < m < 8,
                                up < m,
                        ;
                    }
                }
                lemma_byte_at_bits(bits, 8 * old_bytes.len() as int, last);
            }
        }
        proof {
            assert forall|i: int| 0 <= i < old_bytes.len() implies byte_at(bits, 8 * i)
                == old_bytes[i] by {
                assert forall|j: int| 0 <= j < 8 implies #[trigger] bit_of(old_bytes[i], j) == bit_at(
                    bits,
                    8 * i + j,
                ) by {
                    assert((8 * i + j) / 8 == i && (8 * i + j) % 8 == j);
                }
                lemma_byte_at_bits(bits, 8 * i, old_bytes[i]);
            }
        }
        assert(bytes@ =~= pack_bits(bits));
        bytes
    }
}

} // verus!
