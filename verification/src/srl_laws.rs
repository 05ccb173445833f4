//! What holds of the SRL codec as a whole: decoding undoes encoding.

use vstd::arithmetic::power2::{lemma2_to64, lemma_pow2_pos, lemma_pow2_strictly_increases, pow2};
use vstd::prelude::*;

use crate::bits::{
    advance, binary_digits, bit_at, bits_value, law_digits_value, law_unpack_pack,
    lemma_bits_value_bound, pack_bits, zero_bits,
};
use crate::srl::{
    band, coded_magnitude, decoder_in_range, decoder_start, encoder_in_range, encoder_start,
    kp_after_run, kp_down, kp_up, max_magnitude, read_value, run_code, run_exponent,
    srl_read, srl_read_all, srl_stream, srl_write, srl_write_all, unary, value_code, DecoderState,
    EncoderState,
};

verus! {

/// The largest magnitude that comes back out of a band that refines by `num_bits` bits: one below
/// `2^num_bits`, at least 1, and no more than `i16` holds.
pub open spec fn magnitude_limit(num_bits: u8) -> int {
    if num_bits <= 1 {
        1
    } else if num_bits >= 15 {
        32767
    } else {
        pow2(num_bits as nat) - 1
    }
}

/// The value that comes back for `value` out of a band that refines by `num_bits` bits: the
/// nearest one that the band can carry.
pub open spec fn saturate(value: i16, num_bits: u8) -> i16 {
    if value > magnitude_limit(num_bits) {
        magnitude_limit(num_bits) as i16
    } else if value < -magnitude_limit(num_bits) {
        (-magnitude_limit(num_bits)) as i16
    } else {
        value
    }
}

/// Whether a band that refines by `num_bits` bits can carry `value` unchanged: its magnitude is
/// below `2^num_bits`, or at most 1 where that is less.
pub open spec fn representable(value: i16, num_bits: u8) -> bool {
    &&& value != -32768
    &&& if num_bits == 0 {
        -1 <= value <= 1
    } else {
        -pow2(num_bits as nat) < value < pow2(num_bits as nat)
    }
}

/// The values of a series of coefficients as they come back.
pub open spec fn saturate_all(items: Seq<(i16, u8)>) -> Seq<i16> {
    Seq::new(items.len(), |i: int| saturate(items[i].0, items[i].1))
}

/// The band widths of a series of coefficients.
pub open spec fn widths(items: Seq<(i16, u8)>) -> Seq<u8> {
    Seq::new(items.len(), |i: int| items[i].1)
}

/// `n` zero coefficients.
pub open spec fn zeros(n: nat) -> Seq<i16> {
    Seq::new(n, |i: int| 0i16)
}

/// Every value other than zero belongs to a band that the encoder accepts.
pub open spec fn encodable(items: Seq<(i16, u8)>) -> bool {
    forall|i: int| 0 <= i < items.len() && items[i].0 != 0 ==> (#[trigger] items[i]).1 < 32
}

/// The bits that an encoder at `kp` with `pending` zeros held back still writes for `items`.
spec fn code(kp: int, pending: nat, items: Seq<(i16, u8)>) -> Seq<bool>
    decreases items.len(),
{
    if items.len() == 0 {
        Seq::empty()
    } else if items[0].0 == 0 {
        code(kp, pending + 1, items.skip(1))
    } else {
        run_code(kp, pending) + value_code(items[0].0, items[0].1) + code(
            kp_down(kp_after_run(kp, pending)),
            0,
            items.skip(1),
        )
    }
}

/// The decoder owes `z` zeros; after them it stands at `rest` with run parameter `kp`, about to
/// read a value.
spec fn owes(st: DecoderState, z: nat, kp: int, rest: Seq<bool>) -> bool {
    &&& 0 <= st.kp <= 80
    &&& 0 <= st.nz <= z
    &&& if st.mode {
        st.nz == z && st.kp == kp && st.bits == rest
    } else {
        &&& st.bits == run_code(st.kp, (z - st.nz) as nat) + rest
        &&& kp == kp_after_run(st.kp, (z - st.nz) as nat)
    }
}

/// Nothing but zeros is left to read.
spec fn quiet(st: DecoderState) -> bool {
    &&& !st.mode
    &&& forall|i: int| 0 <= i < st.bits.len() ==> !#[trigger] st.bits[i]
}

proof fn lemma_run_parts(kp: int, z: nat, rest: Seq<bool>)
    requires
        0 <= kp <= 80,
    ensures
        ({
            let k = run_exponent(kp);
            let s = run_code(kp, z) + rest;
            &&& pow2(k) > 0
            &&& s.len() > 0
            &&& z >= pow2(k) ==> {
                &&& !bit_at(s, 0)
                &&& advance(s, 1) == run_code(kp_up(kp), (z - pow2(k)) as nat) + rest
            }
            &&& z < pow2(k) ==> {
                &&& bit_at(s, 0)
                &&& bits_value(advance(s, 1), k) == z
                &&& advance(advance(s, 1), k) == rest
            }
        }),
{
    let k = run_exponent(kp);
    let s = run_code(kp, z) + rest;
    lemma_pow2_pos(k);
    if z >= pow2(k) {
        assert(advance(s, 1) =~= run_code(kp_up(kp), (z - pow2(k)) as nat) + rest);
    } else {
        law_digits_value(z, k, rest);
        assert(advance(s, 1) =~= binary_digits(z, k) + rest);
        assert(advance(advance(s, 1), k) =~= rest);
    }
}

/// A zero that is owed is read as a zero, and one fewer is owed.
proof fn lemma_owed_zero(st: DecoderState, z: nat, kp: int, rest: Seq<bool>, num_bits: u8)
    requires
        owes(st, z, kp, rest),
        z > 0,
    ensures
        srl_read(st, num_bits).0 == 0,
        owes(srl_read(st, num_bits).1, (z - 1) as nat, kp, rest),
{
    if st.nz == 0 && !st.mode {
        lemma_run_parts(st.kp, z, rest);
    }
}

/// Where no zero is owed, the value is read.
proof fn lemma_owed_value(st: DecoderState, kp: int, rest: Seq<bool>, num_bits: u8)
    requires
        owes(st, 0, kp, rest),
    ensures
        srl_read(st, num_bits) == read_value(rest, kp, num_bits),
{
    if !st.mode {
        lemma_run_parts(st.kp, 0, rest);
    }
}

/// Where nothing but zeros is left, a zero is read and nothing but zeros is left.
proof fn lemma_quiet(st: DecoderState, num_bits: u8)
    requires
        quiet(st),
    ensures
        srl_read(st, num_bits).0 == 0,
        quiet(srl_read(st, num_bits).1),
{
}

proof fn lemma_quiet_all(st: DecoderState, widths: Seq<u8>)
    requires
        quiet(st),
    ensures
        srl_read_all(st, widths) == zeros(widths.len()),
    decreases widths.len(),
{
    if widths.len() > 0 {
        lemma_quiet(st, widths[0]);
        lemma_quiet_all(srl_read(st, widths[0]).1, widths.skip(1));
    }
    assert(srl_read_all(st, widths) =~= zeros(widths.len()));
}

/// Counting back the zero bits of a magnitude.
proof fn lemma_unary(from: int, mag: int, max: int, rest: Seq<bool>)
    requires
        1 <= from <= mag <= max,
    ensures
        ({
            let stop = if mag < max {
                seq![true]
            } else {
                Seq::empty()
            };
            unary(zero_bits((mag - from) as nat) + stop + rest, from, max) == (mag, rest)
        }),
    decreases mag - from,
{
    let stop = if mag < max {
        seq![true]
    } else {
        Seq::empty()
    };
    let s = zero_bits((mag - from) as nat) + stop + rest;
    if from == mag {
        if mag < max {
            assert(advance(s, 1) =~= rest);
        } else {
            assert(s =~= rest);
        }
    } else {
        lemma_unary(from + 1, mag, max, rest);
        assert(advance(s, 1) =~= zero_bits((mag - from - 1) as nat) + stop + rest);
    }
}

/// The size of a band's largest magnitude.
proof fn lemma_limit(num_bits: u8)
    ensures
        1 <= magnitude_limit(num_bits) <= 32767,
        num_bits == 1 ==> pow2(num_bits as nat) == 2,
        2 <= num_bits < 15 ==> 4 <= pow2(num_bits as nat) <= 16384,
        num_bits >= 15 ==> pow2(num_bits as nat) >= 32768,
{
    lemma2_to64();
    if 2 < num_bits {
        lemma_pow2_strictly_increases(2, num_bits as nat);
    }
    if num_bits < 14 {
        lemma_pow2_strictly_increases(num_bits as nat, 14);
    }
    if num_bits > 15 {
        lemma_pow2_strictly_increases(15, num_bits as nat);
    }
}

/// A value that was written is read back.
proof fn lemma_value(value: i16, num_bits: u8, kp: int, rest: Seq<bool>)
    requires
        value != 0,
        num_bits < 32,
    ensures
        read_value(value_code(value, num_bits) + rest, kp, num_bits) == (
            saturate(value, num_bits),
            DecoderState { bits: rest, kp: kp_down(kp), nz: 0, mode: false },
        ),
{
    let s = value_code(value, num_bits) + rest;
    lemma_limit(num_bits);
    if num_bits <= 1 {
        assert(advance(s, 1) =~= rest);
    } else {
        lemma2_to64();
        if num_bits > 2 {
            lemma_pow2_strictly_increases(2, num_bits as nat);
        }
        let mag = coded_magnitude(value, num_bits);
        let max = max_magnitude(num_bits);
        let stop = if mag < max {
            seq![true]
        } else {
            Seq::empty()
        };
        lemma_unary(1, mag, max, rest);
        assert(advance(s, 1) =~= zero_bits((mag - 1) as nat) + stop + rest);
    }
}

/// The number of zeros ahead of the first value other than zero.
spec fn lead(items: Seq<(i16, u8)>) -> nat
    decreases items.len(),
{
    if items.len() == 0 || items[0].0 != 0 {
        0
    } else {
        1 + lead(items.skip(1))
    }
}

proof fn lemma_lead(items: Seq<(i16, u8)>)
    ensures
        lead(items) <= items.len(),
        lead(items) < items.len() ==> items[lead(items) as int].0 != 0,
        forall|i: int| 0 <= i < lead(items) ==> (#[trigger] items[i]).0 == 0,
    decreases items.len(),
{
    if items.len() > 0 && items[0].0 == 0 {
        let rest = items.skip(1);
        lemma_lead(rest);
        assert forall|i: int| 0 <= i < lead(items) implies (#[trigger] items[i]).0 == 0 by {
            if i > 0 {
                assert(items[i] == rest[i - 1]);
            }
        }
    }
}

/// The code of a series falls into the zeros ahead of its first value, that value, and the rest.
proof fn lemma_code_lead(kp: int, pending: nat, items: Seq<(i16, u8)>)
    ensures
        ({
            let m = lead(items);
            let run = pending + m;
            if m < items.len() {
                code(kp, pending, items) == run_code(kp, run) + value_code(
                    items[m as int].0,
                    items[m as int].1,
                ) + code(kp_down(kp_after_run(kp, run)), 0, items.skip(m as int + 1))
            } else {
                code(kp, pending, items) == Seq::<bool>::empty()
            }
        }),
    decreases items.len(),
{
    lemma_lead(items);
    if items.len() > 0 && items[0].0 == 0 {
        let rest = items.skip(1);
        lemma_lead(rest);
        lemma_code_lead(kp, pending + 1, rest);
        let m = lead(rest) as int;
        if m < rest.len() {
            assert(rest[m] == items[m + 1]);
            assert(rest.skip(m + 1) =~= items.skip(m + 2));
        }
    }
}

/// What a decoder stands at when `items` are still to come, followed by zero bits.
spec fn in_step(st: DecoderState, kp: int, items: Seq<(i16, u8)>, tail: Seq<bool>) -> bool {
    let m = lead(items);
    if m < items.len() {
        owes(
            st,
            m,
            kp,
            value_code(items[m as int].0, items[m as int].1) + (code(
                kp_down(kp),
                0,
                items.skip(m as int + 1),
            ) + tail),
        )
    } else {
        quiet(st)
    }
}

proof fn lemma_kp_range(kp: int, z: nat)
    requires
        0 <= kp <= 80,
    ensures
        0 <= kp_after_run(kp, z) <= 80,
    decreases z,
{
    let k = run_exponent(kp);
    if z >= pow2(k) && pow2(k) > 0 {
        lemma_kp_range(kp_up(kp), (z - pow2(k)) as nat);
    }
}

/// A decoder between two runs is in step with the code ahead of it.
proof fn lemma_fresh_in_step(st: DecoderState, items: Seq<(i16, u8)>, tail: Seq<bool>)
    requires
        0 <= st.kp <= 80,
        st.nz == 0,
        !st.mode,
        st.bits == code(st.kp, 0, items) + tail,
        forall|i: int| 0 <= i < tail.len() ==> !#[trigger] tail[i],
    ensures
        in_step(st, kp_after_run(st.kp, lead(items)), items, tail),
{
    lemma_lead(items);
    lemma_code_lead(st.kp, 0, items);
    let m = lead(items);
    if m < items.len() {
        let v = value_code(items[m as int].0, items[m as int].1);
        let c = code(kp_down(kp_after_run(st.kp, m)), 0, items.skip(m as int + 1));
        assert(run_code(st.kp, m) + v + c + tail =~= run_code(st.kp, m) + (v + (c + tail)));
    } else {
        assert(st.bits =~= tail);
    }
}

/// A decoder in step reads the coefficients, then zeros.
proof fn lemma_in_step_reads(
    st: DecoderState,
    kp: int,
    items: Seq<(i16, u8)>,
    tail: Seq<bool>,
    extra: Seq<u8>,
)
    requires
        in_step(st, kp, items, tail),
        0 <= kp <= 80,
        encodable(items),
        forall|i: int| 0 <= i < tail.len() ==> !#[trigger] tail[i],
    ensures
        srl_read_all(st, widths(items) + extra) == saturate_all(items) + zeros(extra.len()),
    decreases items.len(),
{
    lemma_lead(items);
    let m = lead(items);
    let all = widths(items) + extra;
    if m >= items.len() {
        lemma_quiet_all(st, all);
        assert forall|i: int| 0 <= i < items.len() implies saturate_all(items)[i] == 0 by {
            assert(items[i].0 == 0);
            lemma_limit(items[i].1);
        }
        assert(zeros(all.len()) =~= saturate_all(items) + zeros(extra.len()));
    } else {
        let rest = items.skip(1);
        let c = code(kp_down(kp), 0, items.skip(m as int + 1));
        let after = value_code(items[m as int].0, items[m as int].1) + (c + tail);
        let next = srl_read(st, all[0]).1;
        assert(all.skip(1) =~= widths(rest) + extra);
        assert forall|i: int| 0 <= i < rest.len() && rest[i].0 != 0 implies (
        #[trigger] rest[i]).1 < 32 by {
            assert(rest[i] == items[i + 1]);
        }
        if m > 0 {
            lemma_owed_zero(st, m, kp, after, all[0]);
            assert(rest[m - 1] == items[m as int]);
            assert(rest.skip(m as int) =~= items.skip(m as int + 1));
            lemma_in_step_reads(next, kp, rest, tail, extra);
        } else {
            lemma_owed_value(st, kp, after, all[0]);
            lemma_value(items[0].0, items[0].1, kp, c + tail);
            lemma_fresh_in_step(next, rest, tail);
            lemma_kp_range(next.kp, lead(rest));
            lemma_in_step_reads(next, kp_after_run(next.kp, lead(rest)), rest, tail, extra);
        }
        lemma_limit(items[0].1);
        assert(seq![srl_read(st, all[0]).0] + saturate_all(rest) + zeros(extra.len())
            =~= saturate_all(items) + zeros(extra.len()));
        assert(srl_read_all(st, all) =~= saturate_all(items) + zeros(extra.len()));
    }
}

/// What an encoder has written, and what it still writes, make up the whole code.
proof fn lemma_written(items: Seq<(i16, u8)>, i: int)
    requires
        0 <= i <= items.len(),
    ensures
        ({
            let st = srl_write_all(items.take(i));
            st.bits + code(st.kp, st.pending, items.skip(i)) == code(8, 0, items)
        }),
    decreases i,
{
    if i == 0 {
        assert(items.take(0) =~= Seq::empty());
        assert(items.skip(0) =~= items);
        assert(encoder_start().bits + code(8, 0, items) =~= code(8, 0, items));
    } else {
        lemma_written(items, i - 1);
        let st = srl_write_all(items.take(i - 1));
        let next = srl_write_all(items.take(i));
        assert(items.take(i).drop_last() =~= items.take(i - 1));
        assert(items.take(i).last() == items[i - 1]);
        let ahead = items.skip(i - 1);
        assert(ahead[0] == items[i - 1]);
        assert(ahead.skip(1) =~= items.skip(i));
        assert(next.bits + code(next.kp, next.pending, items.skip(i)) =~= st.bits + code(
            st.kp,
            st.pending,
            ahead,
        ));
    }
}

/// Decoding the stream of a series of coefficients, with the widths that it was written with,
/// gives every coefficient back, held to the largest magnitude of its band and of `i16`; any
/// number of further reads gives zeros.
pub proof fn law_round_trip(items: Seq<(i16, u8)>, extra: Seq<u8>)
    requires
        encodable(items),
    ensures
        srl_read_all(decoder_start(srl_stream(items)), widths(items) + extra) == saturate_all(
            items,
        ) + zeros(extra.len()),
{
    lemma_written(items, items.len() as int);
    assert(items.take(items.len() as int) =~= items);
    assert(items.skip(items.len() as int) =~= Seq::empty());
    let bits = srl_write_all(items).bits;
    assert(bits =~= code(8, 0, items));
    law_unpack_pack(bits);
    let tail = zero_bits((8 * pack_bits(bits).len() - bits.len()) as nat);
    let st = decoder_start(srl_stream(items));
    lemma_fresh_in_step(st, items, tail);
    lemma_kp_range(8, lead(items));
    lemma_in_step_reads(st, kp_after_run(8, lead(items)), items, tail, extra);
}

/// Decoding undoes encoding: coefficients that their bands can carry come back unchanged,
/// followed by zeros for any number of further reads.
pub proof fn law_round_trip_exact(items: Seq<(i16, u8)>, extra: Seq<u8>)
    requires
        encodable(items),
        forall|i: int|
            0 <= i < items.len() ==> representable((#[trigger] items[i]).0, items[i].1),
    ensures
        srl_read_all(decoder_start(srl_stream(items)), widths(items) + extra) == Seq::new(
            items.len(),
            |i: int| items[i].0,
        ) + zeros(extra.len()),
{
    law_round_trip(items, extra);
    assert forall|i: int| 0 <= i < items.len() implies saturate_all(items)[i] == items[i].0 by {
        assert(representable(items[i].0, items[i].1));
        lemma_limit(items[i].1);
    }
    assert(saturate_all(items) =~= Seq::new(items.len(), |i: int| items[i].0));
}

/// Decoding undoes [`encode_srl`](crate::srl::encode_srl): the values of one band come back
/// unchanged.
pub proof fn law_round_trip_band(values: Seq<i16>, num_bits: u8)
    requires
        num_bits < 32,
        forall|i: int| 0 <= i < values.len() ==> representable(#[trigger] values[i], num_bits),
    ensures
        srl_read_all(
            decoder_start(srl_stream(band(values, num_bits))),
            Seq::new(values.len(), |i: int| num_bits),
        ) == values,
{
    let items = band(values, num_bits);
    assert forall|i: int| 0 <= i < items.len() implies representable(
        (#[trigger] items[i]).0,
        items[i].1,
    ) by {
        assert(representable(values[i], num_bits));
    }
    law_round_trip_exact(items, Seq::empty());
    assert(widths(items) + Seq::empty() =~= Seq::new(values.len(), |i: int| num_bits));
    assert(Seq::new(items.len(), |i: int| items[i].0) + zeros(0) =~= values);
}

/// A value comes back changed exactly where its band cannot carry it.
pub proof fn law_saturate(value: i16, num_bits: u8)
    ensures
        saturate(value, num_bits) == value <==> representable(value, num_bits),
        representable(saturate(value, num_bits), num_bits),
{
    lemma_limit(num_bits);
}

/// Trailing zeros leave no trace in the stream.
pub proof fn law_trailing_zeros(items: Seq<(i16, u8)>, extra: Seq<u8>)
    ensures
        srl_stream(items + Seq::new(extra.len(), |i: int| (0i16, extra[i]))) == srl_stream(items),
{
    lemma_trailing_zeros(items, extra);
}

proof fn lemma_trailing_zeros(items: Seq<(i16, u8)>, extra: Seq<u8>)
    ensures
        srl_write_all(items + Seq::new(extra.len(), |i: int| (0i16, extra[i]))).bits
            == srl_write_all(items).bits,
    decreases extra.len(),
{
    let pad = Seq::new(extra.len(), |i: int| (0i16, extra[i]));
    let all = items + pad;
    if extra.len() == 0 {
        assert(all =~= items);
    } else {
        let fewer = extra.drop_last();
        lemma_trailing_zeros(items, fewer);
        assert(all.drop_last() =~= items + Seq::new(fewer.len(), |i: int| (0i16, fewer[i])));
        assert(all.last().0 == 0);
    }
}

/// A stream without a set bit, the empty one among them, decodes to zeros only.
pub proof fn law_blank_stream(data: Seq<u8>, widths: Seq<u8>)
    requires
        forall|i: int| 0 <= i < data.len() ==> #[trigger] data[i] == 0,
    ensures
        srl_read_all(decoder_start(data), widths) == zeros(widths.len()),
{
    let st = decoder_start(data);
    assert forall|i: int| 0 <= i < st.bits.len() implies !#[trigger] st.bits[i] by {
        assert(data[i / 8] == 0);
        let up = (7 - i % 8) as u8;
        assert((0u8 >> up) & 1u8 == 0) by (bit_vector);
    }
    lemma_quiet_all(st, widths);
}

/// The state that a decoder is left in by a series of reads.
pub open spec fn srl_state_after(st: DecoderState, widths: Seq<u8>) -> DecoderState
    decreases widths.len(),
{
    if widths.len() == 0 {
        st
    } else {
        srl_state_after(srl_read(st, widths[0]).1, widths.skip(1))
    }
}

/// Bands that are read one after the other from one decoder are one series of reads: the state
/// that the first band leaves is where the second one starts.
pub proof fn law_bands_share_one_stream(st: DecoderState, first: Seq<u8>, second: Seq<u8>)
    ensures
        srl_read_all(st, first + second) == srl_read_all(st, first) + srl_read_all(
            srl_state_after(st, first),
            second,
        ),
        srl_state_after(st, first + second) == srl_state_after(srl_state_after(st, first), second),
    decreases first.len(),
{
    let all = first + second;
    if first.len() == 0 {
        assert(all =~= second);
        assert(srl_read_all(st, first) + srl_read_all(st, second) =~= srl_read_all(st, second));
    } else {
        law_bands_share_one_stream(srl_read(st, first[0]).1, first.skip(1), second);
        assert(all.skip(1) =~= first.skip(1) + second);
        assert(srl_read_all(st, all) =~= srl_read_all(st, first) + srl_read_all(
            srl_state_after(st, first),
            second,
        ));
    }
}

/// A magnitude is one more than the zero bits ahead of the first `1` bit, and at most `max`; the
/// `1` bit is consumed, and at `max` no such bit is looked for.
pub proof fn law_capped_unary(s: Seq<bool>, max: int)
    requires
        max >= 1,
    ensures
        ({
            let (mag, rest) = unary(s, 1, max);
            &&& 1 <= mag <= max
            &&& forall|i: int| 0 <= i < mag - 1 ==> !#[trigger] bit_at(s, i)
            &&& if mag < max {
                bit_at(s, mag - 1) && rest == advance(s, mag as nat)
            } else {
                rest == advance(s, (max - 1) as nat)
            }
        }),
{
    assert(advance(s, 0) =~= s);
    lemma_unary_from(s, 1, max);
}

proof fn lemma_unary_from(s: Seq<bool>, from: int, max: int)
    requires
        1 <= from <= max,
    ensures
        ({
            let (mag, rest) = unary(advance(s, (from - 1) as nat), from, max);
            &&& from <= mag <= max
            &&& forall|i: int| from - 1 <= i < mag - 1 ==> !#[trigger] bit_at(s, i)
            &&& if mag < max {
                bit_at(s, mag - 1) && rest == advance(s, mag as nat)
            } else {
                rest == advance(s, (max - 1) as nat)
            }
        }),
    decreases max - from,
{
    let at = advance(s, (from - 1) as nat);
    assert(bit_at(at, 0) == bit_at(s, from - 1));
    assert(advance(at, 1) =~= advance(s, from as nat));
    if from < max && !bit_at(at, 0) {
        lemma_unary_from(s, from + 1, max);
    }
}

/// Reading keeps the run parameter and the zeros owed inside their ranges.
pub proof fn law_read_keeps_ranges(st: DecoderState, num_bits: u8)
    requires
        decoder_in_range(st),
    ensures
        decoder_in_range(srl_read(st, num_bits).1),
{
    lemma2_to64();
    let k = run_exponent(st.kp);
    lemma_pow2_pos(k);
    if k < 10 {
        lemma_pow2_strictly_increases(k, 10);
    }
    lemma_bits_value_bound(advance(st.bits, 1), k);
}

/// Writing keeps the run parameter inside its range.
pub proof fn law_write_keeps_range(st: EncoderState, value: i16, num_bits: u8)
    requires
        encoder_in_range(st),
    ensures
        encoder_in_range(srl_write(st, value, num_bits)),
{
    lemma_kp_range(st.kp, st.pending);
}

} // verus!
