//! The SRL bit stream, described from the outside: what its bits are worth to a decoder, and which
//! bits an encoder writes.

use vstd::arithmetic::power2::{lemma2_to64, lemma_pow2_pos, lemma_pow2_strictly_increases, pow2};
use vstd::prelude::*;

use crate::bits::{
    advance, binary_digits, bit_at, bits_value, law_binary_digit, law_digits_value,
    law_most_significant_first, law_unpack_pack, zero_bits,
};
use crate::srl::{
    band, coded_magnitude, decoder_start, kp_after_run, kp_down, kp_up, max_magnitude, read_value,
    run_code, run_exponent, srl_read, srl_read_all, srl_stream, srl_write, srl_write_all, unary,
    value_code, DecoderState, EncoderState,
};
use crate::srl_laws::{
    law_bands_share_one_stream, law_round_trip_band, representable, srl_state_after, zeros,
};

verus! {

/// The run parameter after `q` full runs that started at `kp`: four more for each, up to 80.
pub open spec fn raised(kp: int, q: nat) -> int {
    if kp + 4 * q > 80 {
        80
    } else {
        kp + 4 * q
    }
}

/// The number of zeros that `q` full runs stand for, the first of them at run parameter `kp`.
pub open spec fn full_run_zeros(kp: int, q: nat) -> nat
    decreases q,
{
    if q == 0 {
        0
    } else {
        full_run_zeros(kp, (q - 1) as nat) + pow2((raised(kp, (q - 1) as nat) / 8) as nat)
    }
}

/// Whether `digits` write `value` in binary, most significant digit first.
pub open spec fn writes(digits: Seq<bool>, value: nat) -> bool {
    &&& value < pow2(digits.len())
    &&& forall|j: int|
        0 <= j < digits.len() ==> (#[trigger] digits[j] <==> (value / pow2(
            (digits.len() - 1 - j) as nat,
        )) % 2 == 1)
}

/// The number of magnitudes of a band that refines by `num_bits` bits, less one.
pub open spec fn top(num_bits: u8) -> int {
    if num_bits < 32 {
        pow2(num_bits as nat) - 1
    } else {
        pow2(32) - 1
    }
}

/// The bits of a value: its sign, and, in a band of more than one bit, a zero bit for each unit of
/// its magnitude above 1 and a `1` bit unless the magnitude is the largest.
pub open spec fn value_bits(negative: bool, magnitude: int, num_bits: u8) -> Seq<bool> {
    if num_bits <= 1 {
        seq![negative]
    } else if magnitude == top(num_bits) {
        seq![negative] + Seq::new((magnitude - 1) as nat, |i: int| false)
    } else {
        seq![negative] + Seq::new((magnitude - 1) as nat, |i: int| false).push(true)
    }
}

/// A decoder between two runs.
pub open spec fn at_rest(st: DecoderState) -> bool {
    0 <= st.kp <= 80 && st.nz == 0 && !st.mode
}

proof fn lemma_full_runs_front(kp: int, q: nat)
    requires
        0 <= kp <= 80,
        q > 0,
    ensures
        full_run_zeros(kp, q) == pow2((kp / 8) as nat) + full_run_zeros(
            raised(kp, 1),
            (q - 1) as nat,
        ),
    decreases q,
{
    reveal_with_fuel(full_run_zeros, 2);
    if q > 1 {
        lemma_full_runs_front(kp, (q - 1) as nat);
        assert(raised(raised(kp, 1), (q - 2) as nat) == raised(kp, (q - 1) as nat));
    }
}

/// Zeros owed are read as zeros, whatever the widths, and change nothing else.
proof fn lemma_owed(st: DecoderState, widths: Seq<u8>)
    requires
        st.nz >= widths.len(),
    ensures
        srl_read_all(st, widths) == zeros(widths.len()),
        srl_state_after(st, widths) == (DecoderState { nz: st.nz - widths.len(), ..st }),
    decreases widths.len(),
{
    if widths.len() > 0 {
        lemma_owed(srl_read(st, widths[0]).1, widths.skip(1));
    }
    assert(srl_read_all(st, widths) =~= zeros(widths.len()));
}

/// Every `0` bit at rest is a full run. The first stands for `2^(kp / 8)` zeros, and each raises
/// `kp` by four, up to 80: so many reads, of whatever widths, give zeros and consume exactly
/// those bits.
pub proof fn law_full_runs(st: DecoderState, q: nat, widths: Seq<u8>)
    requires
        at_rest(st),
        q <= st.bits.len(),
        forall|i: int| 0 <= i < q ==> !#[trigger] st.bits[i],
        widths.len() == full_run_zeros(st.kp, q),
    ensures
        srl_read_all(st, widths) == zeros(widths.len()),
        srl_state_after(st, widths) == (DecoderState {
            bits: st.bits.skip(q as int),
            kp: raised(st.kp, q),
            nz: 0,
            mode: false,
        }),
    decreases q,
{
    if q == 0 {
        assert(st.bits.skip(0) =~= st.bits);
        assert(srl_read_all(st, widths) =~= zeros(0));
    } else {
        lemma_full_runs_front(st.kp, q);
        let n = pow2((st.kp / 8) as nat);
        lemma_pow2_pos((st.kp / 8) as nat);
        let first = widths.take(n as int);
        let second = widths.skip(n as int);
        assert(widths =~= first + second);
        law_bands_share_one_stream(st, first, second);
        assert(!st.bits[0]);
        let next = srl_read(st, first[0]).1;
        assert(next.bits =~= st.bits.skip(1));
        lemma_owed(next, first.skip(1));
        let mid = srl_state_after(st, first);
        assert(mid == (DecoderState {
            bits: st.bits.skip(1),
            kp: raised(st.kp, 1),
            nz: 0,
            mode: false,
        }));
        assert forall|i: int| 0 <= i < q - 1 implies !#[trigger] mid.bits[i] by {
            assert(mid.bits[i] == st.bits[i + 1]);
        }
        law_full_runs(mid, (q - 1) as nat, second);
        assert(mid.bits.skip(q - 1) =~= st.bits.skip(q as int));
        assert(raised(raised(st.kp, 1), (q - 1) as nat) == raised(st.kp, q));
        assert(srl_read_all(st, first) =~= zeros(n));
        assert(zeros(n) + zeros(second.len()) =~= zeros(widths.len()));
    }
}

proof fn lemma_same_digits(digits: Seq<bool>, value: nat)
    requires
        writes(digits, value),
    ensures
        digits == binary_digits(value, digits.len()),
{
    let n = digits.len();
    law_digits_value(value, n, Seq::empty());
    assert forall|j: int| 0 <= j < n implies digits[j] == binary_digits(value, n)[j] by {
        law_binary_digit(value, n, j);
    }
    assert(digits =~= binary_digits(value, n));
}

proof fn lemma_unary_zeros(zeros_left: nat, from: int, max: int, rest: Seq<bool>)
    requires
        from + zeros_left <= max,
    ensures
        unary(Seq::new(zeros_left, |i: int| false) + rest, from, max) == unary(
            rest,
            from + zeros_left,
            max,
        ),
    decreases zeros_left,
{
    let s = Seq::new(zeros_left, |i: int| false) + rest;
    if zeros_left == 0 {
        assert(s =~= rest);
    } else {
        let fewer = (zeros_left - 1) as nat;
        lemma_unary_zeros(fewer, from + 1, max, rest);
        assert(advance(s, 1) =~= Seq::new(fewer, |i: int| false) + rest);
    }
}

proof fn lemma_read_value_bits(
    negative: bool,
    magnitude: int,
    num_bits: u8,
    kp: int,
    rest: Seq<bool>,
)
    requires
        num_bits <= 1 ==> magnitude == 1,
        num_bits > 1 ==> 1 <= magnitude <= top(num_bits),
    ensures
        ({
            let (value, next) = read_value(
                value_bits(negative, magnitude, num_bits) + rest,
                kp,
                num_bits,
            );
            let m = if magnitude > 32767 {
                32767
            } else {
                magnitude
            };
            &&& value == if negative {
                -m
            } else {
                m
            }
            &&& next == (DecoderState { bits: rest, kp: kp_down(kp), nz: 0, mode: false })
        }),
{
    lemma2_to64();
    let s = value_bits(negative, magnitude, num_bits) + rest;
    if num_bits <= 1 {
        assert(advance(s, 1) =~= rest);
    } else {
        let max = max_magnitude(num_bits);
        let n = (magnitude - 1) as nat;
        if magnitude == top(num_bits) {
            assert(advance(s, 1) =~= Seq::new(n, |i: int| false) + rest);
            lemma_unary_zeros(n, 1, max, rest);
        } else {
            let stop = seq![true] + rest;
            assert(advance(s, 1) =~= Seq::new(n, |i: int| false) + stop);
            lemma_unary_zeros(n, 1, max, stop);
            assert(advance(stop, 1) =~= rest);
        }
    }
}

/// At rest a `1` bit, a number `z` in `kp / 8` digits, a sign and a magnitude are `z` zeros and
/// one value; they lower `kp` by six, to 0 at least, and consume exactly those bits. The zeros may
/// be read with whatever widths.
pub proof fn law_run_and_value(
    st: DecoderState,
    digits: Seq<bool>,
    z: nat,
    negative: bool,
    magnitude: int,
    rest: Seq<bool>,
    widths: Seq<u8>,
    num_bits: u8,
)
    requires
        at_rest(st),
        digits.len() == st.kp / 8,
        writes(digits, z),
        num_bits <= 1 ==> magnitude == 1,
        num_bits > 1 ==> 1 <= magnitude <= top(num_bits),
        st.bits == seq![true] + digits + value_bits(negative, magnitude, num_bits) + rest,
        widths.len() == z,
    ensures
        ({
            let m = if magnitude > 32767 {
                32767
            } else {
                magnitude
            };
            let value = if negative {
                -m
            } else {
                m
            };
            &&& srl_read_all(st, widths.push(num_bits)) == zeros(z).push(value as i16)
            &&& srl_state_after(st, widths.push(num_bits)) == (DecoderState {
                bits: rest,
                kp: if st.kp >= 6 {
                    st.kp - 6
                } else {
                    0
                },
                nz: 0,
                mode: false,
            })
        }),
{
    let k = run_exponent(st.kp);
    let v = value_bits(negative, magnitude, num_bits);
    lemma_same_digits(digits, z);
    law_digits_value(z, k, v + rest);
    assert(advance(st.bits, 1) =~= binary_digits(z, k) + (v + rest));
    assert(advance(advance(st.bits, 1), k) =~= v + rest);
    lemma_read_value_bits(negative, magnitude, num_bits, st.kp, rest);
    let all = widths.push(num_bits);
    let last = seq![num_bits];
    assert(all =~= widths + last);
    law_bands_share_one_stream(st, widths, last);
    let ready = DecoderState { bits: v + rest, kp: st.kp, nz: 0, mode: true };
    if z > 0 {
        let next = srl_read(st, widths[0]).1;
        lemma_owed(next, widths.skip(1));
        assert(srl_read_all(st, widths) =~= zeros(z));
        assert(srl_state_after(st, widths) == ready);
    } else {
        assert(srl_read_all(st, widths) =~= zeros(0));
    }
    let before = srl_state_after(st, widths);
    assert(srl_read(before, num_bits) == read_value(v + rest, st.kp, num_bits));
    assert(last.skip(1) =~= Seq::empty());
    let (value, after) = srl_read(before, num_bits);
    reveal_with_fuel(srl_state_after, 2);
    assert(srl_read_all(after, last.skip(1)) =~= Seq::empty());
    assert(srl_read_all(before, last) =~= seq![value]);
    assert(srl_state_after(before, last) == after);
    assert(zeros(z) + seq![value] =~= zeros(z).push(value));
}

/// The bit at place `k` of a stream that goes on in zeros.
pub open spec fn padded(s: Seq<bool>, k: int) -> bool {
    k < s.len() && s[k]
}

/// Whether two streams hold the same bit at every place, where a place past the end holds a zero.
pub open spec fn same_bits(s: Seq<bool>, t: Seq<bool>) -> bool {
    forall|k: int|
        #![trigger padded(s, k)]
        #![trigger padded(t, k)]
        k >= 0 ==> padded(s, k) == padded(t, k)
}

proof fn lemma_same_advance(s: Seq<bool>, t: Seq<bool>, n: nat)
    requires
        same_bits(s, t),
    ensures
        same_bits(advance(s, n), advance(t, n)),
        bit_at(s, 0) == bit_at(t, 0),
{
    let a = advance(s, n);
    let b = advance(t, n);
    assert(padded(s, 0) == padded(t, 0));
    assert forall|k: int|
        #![trigger padded(a, k)]
        #![trigger padded(b, k)]
        k >= 0 implies padded(a, k) == padded(b, k) by {
        assert(padded(s, n + k) == padded(t, n + k));
    }
}

proof fn lemma_same_value(s: Seq<bool>, t: Seq<bool>, n: nat)
    requires
        same_bits(s, t),
    ensures
        bits_value(s, n) == bits_value(t, n),
    decreases n,
{
    if n > 0 {
        lemma_same_value(s, t, (n - 1) as nat);
        assert(padded(s, n - 1) == padded(t, n - 1));
    }
}

proof fn lemma_same_unary(s: Seq<bool>, t: Seq<bool>, mag: int, max: int)
    requires
        same_bits(s, t),
    ensures
        unary(s, mag, max).0 == unary(t, mag, max).0,
        same_bits(unary(s, mag, max).1, unary(t, mag, max).1),
    decreases max - mag,
{
    lemma_same_advance(s, t, 1);
    if mag < max && !bit_at(s, 0) {
        lemma_same_unary(advance(s, 1), advance(t, 1), mag + 1, max);
    }
}

proof fn lemma_same_read_value(s: Seq<bool>, t: Seq<bool>, kp: int, num_bits: u8)
    requires
        same_bits(s, t),
    ensures
        ({
            let (x, a) = read_value(s, kp, num_bits);
            let (y, b) = read_value(t, kp, num_bits);
            x == y && same_bits(a.bits, b.bits) && b == (DecoderState { bits: b.bits, ..a })
        }),
{
    lemma_same_advance(s, t, 1);
    lemma_same_unary(advance(s, 1), advance(t, 1), 1, max_magnitude(num_bits));
}

proof fn lemma_same_read(st: DecoderState, other: Seq<bool>, num_bits: u8)
    requires
        same_bits(st.bits, other),
    ensures
        ({
            let (x, a) = srl_read(st, num_bits);
            let (y, b) = srl_read(DecoderState { bits: other, ..st }, num_bits);
            x == y && same_bits(a.bits, b.bits) && b == (DecoderState { bits: b.bits, ..a })
        }),
{
    let k = run_exponent(st.kp);
    let body = advance(st.bits, 1);
    let body2 = advance(other, 1);
    lemma_same_advance(st.bits, other, 1);
    lemma_same_advance(body, body2, k);
    lemma_same_value(body, body2, k);
    lemma_same_read_value(st.bits, other, st.kp, num_bits);
    lemma_same_read_value(advance(body, k), advance(body2, k), st.kp, num_bits);
}

/// Past its end a stream reads as zero bits: decoders that differ only in how far their streams
/// write those zeros out read the same coefficients.
pub proof fn law_past_end_is_zero_bits(st: DecoderState, other: Seq<bool>, widths: Seq<u8>)
    requires
        same_bits(st.bits, other),
    ensures
        srl_read_all(DecoderState { bits: other, ..st }, widths) == srl_read_all(st, widths),
    decreases widths.len(),
{
    if widths.len() > 0 {
        lemma_same_read(st, other, widths[0]);
        let a = srl_read(st, widths[0]).1;
        let b = srl_read(DecoderState { bits: other, ..st }, widths[0]).1;
        law_past_end_is_zero_bits(a, b.bits, widths.skip(1));
    }
}

/// What a run of zeros ahead of a value is written as: `q` full runs, a `1` bit, and the zeros
/// that are left, in as many digits as an eighth of the run parameter.
pub open spec fn run_written_as(
    bits: Seq<bool>,
    kp: int,
    zeros: nat,
    q: nat,
    digits: Seq<bool>,
) -> bool {
    &&& bits == Seq::new(q, |i: int| false) + seq![true] + digits
    &&& digits.len() == raised(kp, q) / 8
    &&& full_run_zeros(kp, q) <= zeros
    &&& writes(digits, (zeros - full_run_zeros(kp, q)) as nat)
}

proof fn lemma_run_written(kp: int, z: nat) -> (parts: (nat, Seq<bool>))
    requires
        0 <= kp <= 80,
    ensures
        run_written_as(run_code(kp, z), kp, z, parts.0, parts.1),
        kp_after_run(kp, z) == raised(kp, parts.0),
    decreases z,
{
    let k = run_exponent(kp);
    lemma_pow2_pos(k);
    if z >= pow2(k) {
        let less = (z - pow2(k)) as nat;
        let (q, digits) = lemma_run_written(kp_up(kp), less);
        assert(kp_up(kp) == raised(kp, 1));
        lemma_full_runs_front(kp, q + 1);
        assert(raised(raised(kp, 1), q) == raised(kp, q + 1));
        assert(run_code(kp, z) =~= Seq::new(q + 1, |i: int| false) + seq![true] + digits);
        (q + 1, digits)
    } else {
        let digits = binary_digits(z, k);
        law_digits_value(z, k, Seq::empty());
        assert forall|j: int| 0 <= j < digits.len() implies (#[trigger] digits[j] <==> (z / pow2(
            (digits.len() - 1 - j) as nat,
        )) % 2 == 1) by {
            law_binary_digit(z, k, j);
        }
        assert(run_code(kp, z) =~= Seq::new(0, |i: int| false) + seq![true] + digits);
        (0, digits)
    }
}

/// Writing a value writes the run of the zeros held back, then the bits of the value, its
/// magnitude held below `2^num_bits`; nothing stays held back, and the run parameter ends six
/// below what the run left, at 0 at least. The number of full runs and the digits of the rest are
/// given.
pub proof fn law_write_value(st: EncoderState, value: i16, num_bits: u8) -> (parts: (
    nat,
    Seq<bool>,
))
    requires
        0 <= st.kp <= 80,
        value != 0,
        num_bits < 32,
    ensures
        ({
            let (q, digits) = parts;
            let next = srl_write(st, value, num_bits);
            let size = if value < 0 {
                -value
            } else {
                value as int
            };
            let magnitude = if num_bits > 1 && size >= pow2(num_bits as nat) {
                pow2(num_bits as nat) - 1
            } else {
                size
            };
            let run = Seq::new(q, |i: int| false) + seq![true] + digits;
            &&& run_written_as(run, st.kp, st.pending, q, digits)
            &&& next.bits == st.bits + run + value_bits(value < 0, magnitude, num_bits)
            &&& next.pending == 0
            &&& next.kp == if raised(st.kp, q) >= 6 {
                raised(st.kp, q) - 6
            } else {
                0
            }
        }),
{
    let parts = lemma_run_written(st.kp, st.pending);
    lemma2_to64();
    if num_bits > 2 {
        lemma_pow2_strictly_increases(2, num_bits as nat);
    }
    let mag = coded_magnitude(value, num_bits);
    if num_bits > 1 {
        assert(zero_bits((mag - 1) as nat) =~= Seq::new((mag - 1) as nat, |i: int| false));
        assert(value_code(value, num_bits) =~= value_bits(value < 0, mag, num_bits));
    }
    parts
}

/// Writing a zero writes no bit: it adds one to the zeros held back and changes nothing else.
pub proof fn law_write_zero(st: EncoderState, num_bits: u8)
    ensures
        srl_write(st, 0, num_bits).bits == st.bits,
        srl_write(st, 0, num_bits).kp == st.kp,
        srl_write(st, 0, num_bits).pending == st.pending + 1,
{
}

/// Coefficients of `1` and `-1` without a zero, in bands of one bit.
pub open spec fn signs_only(signs: Seq<bool>) -> Seq<(i16, u8)> {
    Seq::new(
        signs.len(),
        |i: int|
            (if signs[i] {
                -1i16
            } else {
                1i16
            }, 1u8),
    )
}

/// Whether `bits` hold the value at place `i` of adjacent ones: a `1` bit, for the first a `0` bit,
/// and the sign.
pub open spec fn holds_sign(bits: Seq<bool>, signs: Seq<bool>, i: int) -> bool {
    if i == 0 {
        bits[0] && !bits[1] && bits[2] == signs[0]
    } else {
        bits[2 * i + 1] && bits[2 * i + 2] == signs[i]
    }
}

/// The run parameter starts at 8 and falls by six with each value: of adjacent values in a band of
/// one bit, the first takes a `1` bit, one digit of run length and its sign, and every further one
/// only a `1` bit and its sign.
pub proof fn law_adjacent_values(signs: Seq<bool>)
    ensures
        ({
            let st = srl_write_all(signs_only(signs));
            &&& st.bits.len() == if signs.len() == 0 {
                0
            } else {
                2 * signs.len() + 1
            }
            &&& forall|i: int|
                0 <= i < signs.len() ==> #[trigger] holds_sign(st.bits, signs, i)
            &&& st.pending == 0
            &&& st.kp == if signs.len() == 0 {
                8int
            } else if signs.len() == 1 {
                2
            } else {
                0
            }
        }),
    decreases signs.len(),
{
    let items = signs_only(signs);
    if signs.len() > 0 {
        let fewer = signs.drop_last();
        law_adjacent_values(fewer);
        assert(items.drop_last() =~= signs_only(fewer));
        let before = srl_write_all(signs_only(fewer));
        lemma2_to64();
        reveal_with_fuel(binary_digits, 2);
        let k = run_exponent(before.kp);
        assert(run_code(before.kp, 0) == seq![true] + binary_digits(0, k));
        let last = signs.last();
        let st = srl_write_all(items);
        assert(st.bits == before.bits + run_code(before.kp, 0) + seq![last]);
        assert forall|i: int| 0 <= i < signs.len() implies #[trigger] holds_sign(
            st.bits,
            signs,
            i,
        ) by {
            if i < fewer.len() {
                assert(holds_sign(before.bits, fewer, i));
            }
        }
    }
}

/// Reading adjacent values: from the start of a stream, a `1` bit, a `0` bit and a sign are the
/// first value, and a `1` bit and a sign are every further one.
pub proof fn law_adjacent_values_read(data: Seq<u8>, signs: Seq<bool>, widths: Seq<u8>)
    requires
        signs.len() > 0,
        2 * signs.len() + 1 <= decoder_start(data).bits.len(),
        forall|i: int|
            0 <= i < signs.len() ==> #[trigger] holds_sign(decoder_start(data).bits, signs, i),
        widths.len() == signs.len(),
        forall|i: int| 0 <= i < widths.len() ==> #[trigger] widths[i] <= 1,
    ensures
        srl_read_all(decoder_start(data), widths) == Seq::new(
            signs.len(),
            |i: int|
                if signs[i] {
                    -1i16
                } else {
                    1i16
                },
        ),
{
    let st = decoder_start(data);
    assert(holds_sign(st.bits, signs, 0));
    lemma2_to64();
    reveal_with_fuel(bits_value, 2);
    let next = srl_read(st, widths[0]).1;
    assert(bit_at(advance(st.bits, 1), 0) == st.bits[1]);
    assert(advance(advance(advance(st.bits, 1), 1), 1) =~= st.bits.skip(3));
    assert(next == (DecoderState { bits: st.bits.skip(3), kp: 2, nz: 0, mode: false }));
    lemma_adjacent_read(st.bits, next, signs, widths, 1);
    assert(widths.skip(0) =~= widths);
    let all = Seq::new(
        signs.len(),
        |i: int|
            if signs[i] {
                -1i16
            } else {
                1i16
            },
    );
    assert(srl_read_all(st, widths) =~= all);
}

proof fn lemma_adjacent_read(
    bits: Seq<bool>,
    st: DecoderState,
    signs: Seq<bool>,
    widths: Seq<u8>,
    from: int,
)
    requires
        1 <= from <= signs.len(),
        2 * signs.len() + 1 <= bits.len(),
        forall|i: int| 1 <= i < signs.len() ==> #[trigger] holds_sign(bits, signs, i),
        widths.len() == signs.len(),
        forall|i: int| 0 <= i < widths.len() ==> #[trigger] widths[i] <= 1,
        st.bits == bits.skip(2 * from + 1),
        0 <= st.kp < 6,
        st.nz == 0,
        !st.mode,
    ensures
        srl_read_all(st, widths.skip(from)) == Seq::new(
            (signs.len() - from) as nat,
            |i: int|
                if signs[from + i] {
                    -1i16
                } else {
                    1i16
                },
        ),
    decreases signs.len() - from,
{
    let ahead = widths.skip(from);
    let expected = Seq::new(
        (signs.len() - from) as nat,
        |i: int|
            if signs[from + i] {
                -1i16
            } else {
                1i16
            },
    );
    if from < signs.len() {
        assert(holds_sign(bits, signs, from));
        assert(ahead[0] == widths[from]);
        let next = srl_read(st, ahead[0]).1;
        assert(advance(advance(st.bits, 1), 0) =~= bits.skip(2 * from + 2));
        assert(bits_value(advance(st.bits, 1), 0) == 0);
        assert(advance(bits.skip(2 * from + 2), 1) =~= bits.skip(2 * from + 3));
        lemma_adjacent_read(bits, next, signs, widths, from + 1);
        assert(ahead.skip(1) =~= widths.skip(from + 1));
        assert(srl_read_all(st, ahead) =~= expected);
    } else {
        assert(srl_read_all(st, ahead) =~= expected);
    }
}

/// The bit of weight `2^(7 - k % 8)` of byte `k / 8`.
pub open spec fn byte_bit(data: Seq<u8>, k: int) -> bool {
    (data[k / 8] as nat / pow2((7 - k % 8) as nat)) % 2 == 1
}

/// A decoder starts at rest, with a run parameter of 8, on the bits of its bytes: eight for each
/// byte, the most significant first.
pub proof fn law_decoder_start(data: Seq<u8>)
    ensures
        at_rest(decoder_start(data)),
        decoder_start(data).kp == 8,
        decoder_start(data).bits.len() == 8 * data.len(),
        forall|k: int|
            0 <= k < 8 * data.len() ==> #[trigger] decoder_start(data).bits[k] == byte_bit(data, k),
{
    assert forall|k: int| 0 <= k < 8 * data.len() implies #[trigger] decoder_start(data).bits[k]
        == byte_bit(data, k) by {
        law_most_significant_first(data, k);
    }
}

/// A stream is the bits that were written, eight to a byte, the most significant first, and zero
/// bits that fill the last byte.
pub proof fn law_stream_bits(items: Seq<(i16, u8)>)
    ensures
        ({
            let bits = srl_write_all(items).bits;
            let stream = srl_stream(items);
            &&& stream.len() == (bits.len() + 7) / 8
            &&& forall|k: int|
                0 <= k < 8 * stream.len() ==> #[trigger] padded(bits, k) == byte_bit(stream, k)
        }),
{
    let bits = srl_write_all(items).bits;
    let stream = srl_stream(items);
    law_unpack_pack(bits);
    assert forall|k: int| 0 <= k < 8 * stream.len() implies #[trigger] padded(bits, k) == byte_bit(
        stream,
        k,
    ) by {
        law_most_significant_first(stream, k);
    }
}

/// In a band that refines by two to fifteen bits, encoding and then decoding gives back every value
/// whose magnitude is below `2^num_bits`.
pub proof fn law_band_round_trip(values: Seq<i16>, num_bits: u8)
    requires
        2 <= num_bits <= 15,
        forall|i: int|
            0 <= i < values.len() ==> -pow2(num_bits as nat) < #[trigger] values[i] < pow2(
                num_bits as nat,
            ),
    ensures
        srl_read_all(
            decoder_start(srl_stream(band(values, num_bits))),
            Seq::new(values.len(), |i: int| num_bits),
        ) == values,
{
    lemma2_to64();
    assert forall|i: int| 0 <= i < values.len() implies representable(
        #[trigger] values[i],
        num_bits,
    ) by {
        if num_bits < 15 {
            lemma_pow2_strictly_increases(num_bits as nat, 15);
        }
    }
    law_round_trip_band(values, num_bits);
}

/// A coefficient other than zero lowers the run parameter by six, to 0 at least, and leaves no
/// zero owed; a zero never lowers it, and raises it by four, to 80 at most, or not at all.
pub proof fn law_run_parameter(st: DecoderState, num_bits: u8)
    requires
        0 <= st.kp <= 80,
    ensures
        ({
            let (value, next) = srl_read(st, num_bits);
            &&& value != 0 ==> next.nz == 0 && !next.mode && next.kp == if st.kp >= 6 {
                st.kp - 6
            } else {
                0
            }
            &&& value == 0 ==> next.kp == st.kp || next.kp == if st.kp <= 76 {
                st.kp + 4
            } else {
                80
            }
        }),
{
    lemma2_to64();
    if num_bits > 1 {
        if 2 < num_bits {
            lemma_pow2_strictly_increases(2, num_bits as nat);
        }
        let k = run_exponent(st.kp);
        lemma_unary_at_least(advance(st.bits, 1), 1, max_magnitude(num_bits));
        lemma_unary_at_least(
            advance(advance(advance(st.bits, 1), k), 1),
            1,
            max_magnitude(num_bits),
        );
    }
}

proof fn lemma_unary_at_least(s: Seq<bool>, mag: int, max: int)
    ensures
        unary(s, mag, max).0 >= mag,
    decreases max - mag,
{
    if mag < max && !bit_at(s, 0) {
        lemma_unary_at_least(advance(s, 1), mag + 1, max);
    }
}

} // verus!
