//! SRL (Simplified Run-Length) entropy codec for progressive upgrade passes.
//!
//! One SRL bit stream carries the coefficients of every subband of one component. The codec is
//! stateful: the adaptive run parameter `kp`, the zeros that are still owed `nz` and the `mode`
//! flag live on from one coefficient to the next. Callers build one [`SrlDecoder`] per component
//! and call [`SrlDecoder::read`] once per coefficient, in band order.
//!
//! A run of zeros is written as a series of `0` bits, each worth `2^(kp / 8)` zeros, then a `1`
//! bit and the remaining count in `kp / 8` bits. A value is a sign bit and a capped-unary
//! magnitude: zero bits counted from 1 until a `1` bit or the largest magnitude of the band.

use vstd::arithmetic::power2::{lemma2_to64, lemma_pow2_strictly_increases, lemma_pow2_pos, pow2};
use vstd::bits::lemma_u32_shl_is_mul;
use vstd::prelude::*;

use crate::bits::{
    advance, binary_digits, bit_at, bits_of, bits_value, lemma_bits_value_bound, pack_bits,
    zero_bits, BitReader, BitWriter,
};

verus! {

/// What a decoder stands at: the unread bits, the run parameter, the zeros owed from the run
/// being read, and whether a value follows those zeros.
pub struct DecoderState {
    pub bits: Seq<bool>,
    pub kp: int,
    pub nz: int,
    pub mode: bool,
}

/// What an encoder stands at: the bits written, the run parameter and the zeros not yet written.
pub struct EncoderState {
    pub bits: Seq<bool>,
    pub kp: int,
    pub pending: nat,
}

/// The run parameter lies in `0..=80`, and no more zeros are owed than the longest run holds.
pub open spec fn decoder_in_range(st: DecoderState) -> bool {
    0 <= st.kp <= 80 && 0 <= st.nz < 1024
}

/// The run parameter lies in `0..=80`.
pub open spec fn encoder_in_range(st: EncoderState) -> bool {
    0 <= st.kp <= 80
}

/// The run parameter after a full run of zeros.
pub open spec fn kp_up(kp: int) -> int {
    if kp + 4 > 80 {
        80
    } else {
        kp + 4
    }
}

/// The run parameter after a value.
pub open spec fn kp_down(kp: int) -> int {
    if kp < 6 {
        0
    } else {
        kp - 6
    }
}

/// The number of zeros that one `0` bit stands for is two to this power.
pub open spec fn run_exponent(kp: int) -> nat {
    (kp / 8) as nat
}

/// The largest magnitude of a band that refines by `num_bits` bits.
pub open spec fn max_magnitude(num_bits: u8) -> int {
    if num_bits < 32 {
        pow2(num_bits as nat) - 1
    } else {
        0xFFFF_FFFF
    }
}

/// A magnitude with a sign, held inside the range of `i16`.
pub open spec fn signed(negative: bool, magnitude: int) -> i16 {
    let m = if magnitude > 32767 {
        32767
    } else {
        magnitude
    };
    (if negative {
        -m
    } else {
        m
    }) as i16
}

/// Counts zero bits on top of `mag` until a `1` bit or until `max`; gives the count and what is
/// left of the stream.
pub open spec fn unary(s: Seq<bool>, mag: int, max: int) -> (int, Seq<bool>)
    decreases max - mag,
{
    if mag >= max {
        (mag, s)
    } else if bit_at(s, 0) {
        (mag, advance(s, 1))
    } else {
        unary(advance(s, 1), mag + 1, max)
    }
}

/// Reads a sign and a magnitude from the front of `s`.
pub open spec fn read_value(s: Seq<bool>, kp: int, num_bits: u8) -> (i16, DecoderState) {
    let negative = bit_at(s, 0);
    let (mag, rest) = if num_bits <= 1 {
        (1, advance(s, 1))
    } else {
        unary(advance(s, 1), 1, max_magnitude(num_bits))
    };
    (signed(negative, mag), DecoderState { bits: rest, kp: kp_down(kp), nz: 0, mode: false })
}

/// Reads one coefficient of a band that refines by `num_bits` bits.
pub open spec fn srl_read(st: DecoderState, num_bits: u8) -> (i16, DecoderState) {
    let k = run_exponent(st.kp);
    let body = advance(st.bits, 1);
    let run = bits_value(body, k) as int;
    if st.nz > 0 {
        (0, DecoderState { nz: st.nz - 1, ..st })
    } else if st.mode {
        read_value(st.bits, st.kp, num_bits)
    } else if !bit_at(st.bits, 0) {
        (0, DecoderState { bits: body, kp: kp_up(st.kp), nz: pow2(k) - 1, mode: false })
    } else if run > 0 {
        (0, DecoderState { bits: advance(body, k), kp: st.kp, nz: run - 1, mode: true })
    } else {
        read_value(advance(body, k), st.kp, num_bits)
    }
}

/// A decoder at the start of `data`.
pub open spec fn decoder_start(data: Seq<u8>) -> DecoderState {
    DecoderState { bits: bits_of(data), kp: 8, nz: 0, mode: false }
}

/// The coefficients read for bands of the given widths, one after the other.
pub open spec fn srl_read_all(st: DecoderState, widths: Seq<u8>) -> Seq<i16>
    decreases widths.len(),
{
    if widths.len() == 0 {
        Seq::empty()
    } else {
        let (value, next) = srl_read(st, widths[0]);
        seq![value] + srl_read_all(next, widths.skip(1))
    }
}

/// The bits of a run of `zeros` zeros that a value follows.
pub open spec fn run_code(kp: int, zeros: nat) -> Seq<bool>
    decreases zeros,
{
    let k = run_exponent(kp);
    if zeros >= pow2(k) && pow2(k) > 0 {
        seq![false] + run_code(kp_up(kp), (zeros - pow2(k)) as nat)
    } else {
        seq![true] + binary_digits(zeros, k)
    }
}

/// The run parameter after a run of `zeros` zeros that a value follows.
pub open spec fn kp_after_run(kp: int, zeros: nat) -> int
    decreases zeros,
{
    let k = run_exponent(kp);
    if zeros >= pow2(k) && pow2(k) > 0 {
        kp_after_run(kp_up(kp), (zeros - pow2(k)) as nat)
    } else {
        kp
    }
}

/// The magnitude that is written for `value` in a band that refines by `num_bits` bits.
pub open spec fn coded_magnitude(value: i16, num_bits: u8) -> int {
    let m = if value < 0 {
        -value
    } else {
        value as int
    };
    if m > max_magnitude(num_bits) {
        max_magnitude(num_bits)
    } else {
        m
    }
}

/// The bits of a value other than zero: its sign, then its magnitude less one in zero bits, ended
/// by a `1` bit unless the magnitude is the largest one.
pub open spec fn value_code(value: i16, num_bits: u8) -> Seq<bool> {
    let mag = coded_magnitude(value, num_bits);
    let stop = if mag < max_magnitude(num_bits) {
        seq![true]
    } else {
        Seq::empty()
    };
    if num_bits <= 1 {
        seq![value < 0]
    } else {
        seq![value < 0] + zero_bits((mag - 1) as nat) + stop
    }
}

/// An encoder to which nothing has been written.
pub open spec fn encoder_start() -> EncoderState {
    EncoderState { bits: Seq::empty(), kp: 8, pending: 0 }
}

/// Writes one coefficient: a zero is held back, a value writes the zeros held back and itself.
pub open spec fn srl_write(st: EncoderState, value: i16, num_bits: u8) -> EncoderState {
    if value == 0 {
        EncoderState { pending: st.pending + 1, ..st }
    } else {
        EncoderState {
            bits: st.bits + run_code(st.kp, st.pending) + value_code(value, num_bits),
            kp: kp_down(kp_after_run(st.kp, st.pending)),
            pending: 0,
        }
    }
}

/// The encoder after the given coefficients, each with the width of its band.
pub open spec fn srl_write_all(items: Seq<(i16, u8)>) -> EncoderState
    decreases items.len(),
{
    if items.len() == 0 {
        encoder_start()
    } else {
        srl_write(srl_write_all(items.drop_last()), items.last().0, items.last().1)
    }
}

/// The stream of the given coefficients, each with the width of its band.
pub open spec fn srl_stream(items: Seq<(i16, u8)>) -> Seq<u8> {
    pack_bits(srl_write_all(items).bits)
}

/// Coefficients of one band.
pub open spec fn band(values: Seq<i16>, num_bits: u8) -> Seq<(i16, u8)> {
    Seq::new(values.len(), |i: int| (values[i], num_bits))
}

/// No run of zeros is longer than an encoder can count.
pub open spec fn zero_runs_fit(values: Seq<i16>) -> bool {
    forall|i: int, j: int|
        #![trigger values.subrange(i, j)]
        0 <= i <= j <= values.len() && (forall|k: int| i <= k < j ==> values[k] == 0) ==> j - i
            <= u32::MAX
}

/// Computes `2^k`.
fn power_of_two(k: u32) -> (p: u32)
    requires
        k < 32,
    ensures
        p == pow2(k as nat),
        p > 0,
{
    proof {
        lemma_pow2_pos(k as nat);
        lemma2_to64();
        if k < 31 {
            lemma_pow2_strictly_increases(k as nat, 31);
        }
        lemma_u32_shl_is_mul(1, k);
    }
    1u32 << k
}

/// Stateful SRL decoder over one component's SRL byte stream.
pub struct SrlDecoder<'a> {
    bits: BitReader<'a>,
    kp: i32,
    nz: i32,
    mode: bool,
}

impl<'a> View for SrlDecoder<'a> {
    type V = DecoderState;

    closed spec fn view(&self) -> DecoderState {
        DecoderState {
            bits: self.bits@,
            kp: self.kp as int,
            nz: self.nz as int,
            mode: self.mode,
        }
    }
}

impl<'a> SrlDecoder<'a> {
    /// The run parameter and the zeros owed stay inside their ranges.
    pub closed spec fn wf(self) -> bool {
        &&& self.bits.wf()
        &&& decoder_in_range(self@)
    }

    /// A well-formed decoder keeps its run parameter and the zeros that it owes inside their
    /// ranges.
    pub proof fn law_in_range(&self)
        requires
            self.wf(),
        ensures
            decoder_in_range(self@),
    {
    }

    /// Attaches a decoder to a component's SRL stream.
    pub fn new(data: &'a [u8]) -> (decoder: Self)
        ensures
            decoder.wf(),
            decoder@ == decoder_start(data@),
    {
        SrlDecoder { bits: BitReader::new(data), kp: 8, nz: 0, mode: false }
    }

    /// Reads one coefficient value (`0` if it stays zero this pass); `num_bits` is the band's
    /// refinement bit width.
    pub fn read(&mut self, num_bits: u8) -> (value: i16)
        requires
            old(self).wf(),
        ensures
            final(self).wf(),
            (value, final(self)@) == srl_read(old(self)@, num_bits),
    {
        if self.nz > 0 {
            self.nz = self.nz - 1;
            return 0;
        }
        let k: u32 = (self.kp / 8) as u32;
        proof {
            lemma2_to64();
            if k < 10 {
                lemma_pow2_strictly_increases(k as nat, 10);
            }
        }
        if !self.mode {
            if !self.bits.read_bit() {
                // A `0` bit: a run of exactly 2^k zeros.
                self.nz = power_of_two(k) as i32 - 1;
                self.kp = self.kp + 4;
                if self.kp > 80 {
                    self.kp = 80;
                }
                return 0;
            }
            // A `1` bit: the next k bits count the zeros ahead of a value.
            self.mode = true;
            let ghost body = self.bits@;
            proof {
                lemma_bits_value_bound(body, k as nat);
            }
            self.nz = self.bits.read_bits(k) as i32;
            if self.nz > 0 {
                self.nz = self.nz - 1;
                return 0;
            }
        }
        self.mode = false;
        let ghost s = self.bits@;
        let sign = self.bits.read_bit();
        if self.kp < 6 {
            self.kp = 0;
        } else {
            self.kp = self.kp - 6;
        }
        if num_bits <= 1 {
            return if sign { -1 } else { 1 };
        }
        let max: u32 = if num_bits < 32 {
            power_of_two(num_bits as u32) - 1
        } else {
            u32::MAX
        };
        let mut mag: u32 = 1;
        let ghost body = self.bits@;
        while mag < max
            invariant_except_break
                unary(body, 1, max as int) == unary(self.bits@, mag as int, max as int),
            invariant
                self.bits.wf(),
                self.kp == kp_down(old(self).kp as int),
                self.nz == 0,
                !self.mode,
                1 <= mag,
            ensures
                unary(body, 1, max as int) == (mag as int, self.bits@),
            decreases max - mag,
        {
            if self.bits.read_bit() {
                break;
            }
            mag = mag + 1;
        }
        let mag: i16 = if mag > 32767 {
            32767
        } else {
            mag as i16
        };
        if sign {
            -mag
        } else {
            mag
        }
    }
}

/// Stateful SRL encoder: exact inverse of [`SrlDecoder`] over one stream.
///
/// Zeros are held back until a value is written. Trailing zeros need no bits: past the end of the
/// stream a decoder reads zeros.
pub struct SrlEncoder {
    w: BitWriter,
    kp: i32,
    pending_zeros: u32,
}

impl View for SrlEncoder {
    type V = EncoderState;

    closed spec fn view(&self) -> EncoderState {
        EncoderState { bits: self.w@, kp: self.kp as int, pending: self.pending_zeros as nat }
    }
}

impl SrlEncoder {
    /// The run parameter stays inside its range.
    pub closed spec fn wf(self) -> bool {
        &&& self.w.wf()
        &&& encoder_in_range(self@)
    }

    /// A well-formed encoder keeps its run parameter inside its range, and its pending zeros fit
    /// its counter.
    pub proof fn law_in_range(&self)
        requires
            self.wf(),
        ensures
            encoder_in_range(self@),
            self@.pending <= u32::MAX,
    {
    }

    /// An encoder to which nothing has been written.
    pub fn new() -> (encoder: Self)
        ensures
            encoder.wf(),
            encoder@ == encoder_start(),
    {
        SrlEncoder { w: BitWriter::new(), kp: 8, pending_zeros: 0 }
    }

    /// Encodes one coefficient value (`0` accumulates into the pending zero run).
    pub fn write(&mut self, value: i16, num_bits: u8)
        requires
            old(self).wf(),
            value == 0 ==> old(self)@.pending < u32::MAX,
            value != 0 ==> num_bits < 32,
        ensures
            final(self).wf(),
            final(self)@ == srl_write(old(self)@, value, num_bits),
    {
        if value == 0 {
            self.pending_zeros = self.pending_zeros + 1;
            return;
        }
        self.flush_zeros();
        let ghost flushed = self.w@;
        self.w.write_bit(value < 0);
        if self.kp < 6 {
            self.kp = 0;
        } else {
            self.kp = self.kp - 6;
        }
        if num_bits <= 1 {
            assert(self.w@ =~= flushed + value_code(value, num_bits));
            return;
        }
        let power = power_of_two(num_bits as u32);
        proof {
            lemma2_to64();
            if num_bits > 2 {
                lemma_pow2_strictly_increases(2, num_bits as nat);
            }
        }
        let max: u32 = power - 1;
        let abs: u32 = if value < 0 {
            (-(value as i32)) as u32
        } else {
            value as u32
        };
        let mag: u32 = if abs > max {
            max
        } else {
            abs
        };
        let mut written: u32 = 1;
        assert(self.w@ =~= flushed + seq![value < 0] + zero_bits(0));
        while written < mag
            invariant
                1 <= written <= mag,
                self.w.wf(),
                self.kp == kp_down(kp_after_run(old(self).kp as int, old(self).pending_zeros as nat)),
                0 <= self.kp <= 80,
                self.pending_zeros == 0,
                self.w@ == flushed + seq![value < 0] + zero_bits((written - 1) as nat),
            decreases mag - written,
        {
            self.w.write_bit(false);
            written = written + 1;
            assert(self.w@ =~= flushed + seq![value < 0] + zero_bits((written - 1) as nat));
        }
        if mag < max {
            self.w.write_bit(true);
        }
        assert(self.w@ =~= flushed + value_code(value, num_bits));
    }

    /// Writes the zeros held back.
    fn flush_zeros(&mut self)
        requires
            old(self).wf(),
        ensures
            final(self).wf(),
            final(self)@ == (EncoderState {
                bits: old(self)@.bits + run_code(old(self)@.kp, old(self)@.pending),
                kp: kp_after_run(old(self)@.kp, old(self)@.pending),
                pending: 0,
            }),
    {
        let mut z: u32 = self.pending_zeros;
        let ghost whole = old(self)@.bits + run_code(old(self)@.kp, old(self)@.pending);
        loop
            invariant_except_break
                self.w.wf(),
                0 <= self.kp <= 80,
                self.w@ + run_code(self.kp as int, z as nat) == whole,
                kp_after_run(self.kp as int, z as nat) == kp_after_run(
                    old(self)@.kp,
                    old(self)@.pending,
                ),
            ensures
                self.w.wf(),
                0 <= self.kp <= 80,
                self.w@ == whole,
                self.kp == kp_after_run(old(self)@.kp, old(self)@.pending),
            decreases z,
        {
            let ghost before = self.w@;
            let ghost code = run_code(self.kp as int, z as nat);
            let k: u32 = (self.kp / 8) as u32;
            let chunk: u32 = power_of_two(k);
            self.w.write_bit(z < chunk);
            if z >= chunk {
                self.kp = self.kp + 4;
                if self.kp > 80 {
                    self.kp = 80;
                }
                z = z - chunk;
                assert(self.w@ + run_code(self.kp as int, z as nat) =~= before + code);
            } else {
                self.w.write_bits(z, k);
                assert(self.w@ =~= before + code);
                break;
            }
        }
        self.pending_zeros = 0;
    }

    /// Finishes the stream, dropping trailing zeros (a decoder fills them in past the end).
    pub fn finish(self) -> (bytes: Vec<u8>)
        requires
            self.wf(),
        ensures
            bytes@ == pack_bits(self@.bits),
    {
        self.w.finish()
    }
}

impl Default for SrlEncoder {
    fn default() -> (encoder: Self)
        ensures
            encoder.wf(),
            encoder@ == encoder_start(),
    {
        SrlEncoder::new()
    }
}

/// Encodes a standalone value sequence as a single stream.
pub fn encode_srl(values: &[i16], num_bits: u8) -> (bytes: Vec<u8>)
    requires
        zero_runs_fit(values@),
        num_bits < 32 || forall|i: int| 0 <= i < values@.len() ==> values@[i] == 0,
    ensures
        bytes@ == srl_stream(band(values@, num_bits)),
{
    let mut enc = SrlEncoder::new();
    let mut i: usize = 0;
    let ghost items = band(values@, num_bits);
    assert(items.take(0) =~= Seq::empty());
    while i < values.len()
        invariant
            i <= values@.len(),
            zero_runs_fit(values@),
            num_bits < 32 || forall|i: int| 0 <= i < values@.len() ==> values@[i] == 0,
            items == band(values@, num_bits),
            enc.wf(),
            enc@ == srl_write_all(items.take(i as int)),
            enc@.pending <= i,
            forall|k: int| i - enc@.pending <= k < i ==> values@[k] == 0,
        decreases values@.len() - i,
    {
        proof {
            if values@[i as int] == 0 {
                let run = values@.subrange(i - enc@.pending, i + 1);
            }
            assert(items.take(i + 1).drop_last() =~= items.take(i as int));
        }
        enc.write(values[i], num_bits);
        i = i + 1;
    }
    assert(items.take(i as int) =~= items);
    enc.finish()
}

} // verus!
