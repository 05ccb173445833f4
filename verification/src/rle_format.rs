//! The run-length format of color planes, described byte for byte, and a plain encoder that the
//! decoder undoes.

use vstd::prelude::*;

use crate::error::NscodecError;
use crate::rle::{le_u32, repeated, rle_plane};

verus! {

/// The four bytes of a number below `2^32`, least significant first.
pub open spec fn little_endian(n: nat) -> Seq<u8> {
    seq![
        (n % 256) as u8,
        (n / 256 % 256) as u8,
        (n / 65536 % 256) as u8,
        (n / 16777216 % 256) as u8,
    ]
}

/// `n` bytes equal to `value`, then `tail`.
pub open spec fn run_then(value: u8, n: nat, tail: Seq<u8>) -> Seq<u8> {
    Seq::new(n + tail.len(), |i: int| if i < n { value } else { tail[i - n] })
}

/// What an input decodes to whose front stands for `n` bytes equal to `value`, where `rest` is
/// what the input behind the front decodes to.
pub open spec fn ahead_of(
    value: u8,
    n: nat,
    rest: Result<Seq<u8>, NscodecError>,
) -> Result<Seq<u8>, NscodecError> {
    match rest {
        Ok(tail) => Ok(run_then(value, n, tail)),
        Err(error) => Err(error),
    }
}

proof fn lemma_ahead_of(value: u8, n: nat, tail: Seq<u8>)
    ensures
        repeated(value, n) + tail == run_then(value, n, tail),
{
    assert(repeated(value, n) + tail =~= run_then(value, n, tail));
}

/// A byte ahead of a different one stands for itself.
pub proof fn law_single_byte(value: u8, rest: Seq<u8>, left: nat)
    requires
        left > 5,
        rest.len() > 0,
        rest[0] != value,
    ensures
        rle_plane(seq![value] + rest, left) == ahead_of(
            value,
            1,
            rle_plane(rest, (left - 1) as nat),
        ),
{
    let input = seq![value] + rest;
    assert(input.skip(1) =~= rest);
    if let Ok(tail) = rle_plane(rest, (left - 1) as nat) {
        lemma_ahead_of(value, 1, tail);
    }
}

/// The last byte ahead of the raw tail stands for itself, whatever follows it.
pub proof fn law_last_coded_byte(value: u8, rest: Seq<u8>)
    ensures
        rle_plane(seq![value] + rest, 5) == ahead_of(value, 1, rle_plane(rest, 4)),
{
    let input = seq![value] + rest;
    assert(input.skip(1) =~= rest);
    if let Ok(tail) = rle_plane(rest, 4) {
        lemma_ahead_of(value, 1, tail);
    }
}

/// A byte twice and a length byte other than `0xFF` stand for a run of two bytes more than the
/// length byte says. A run that leaves fewer than four bytes for the raw tail is refused.
pub proof fn law_short_run(value: u8, n: nat, rest: Seq<u8>, left: nat)
    requires
        left > 5,
        2 <= n <= 256,
    ensures
        rle_plane(seq![value, value, (n - 2) as u8] + rest, left) == if n + 4 > left {
            Err(NscodecError::RleRunExceedsPlane)
        } else {
            ahead_of(value, n, rle_plane(rest, (left - n) as nat))
        },
{
    let input = seq![value, value, (n - 2) as u8] + rest;
    assert(input.skip(3) =~= rest);
    if n + 4 <= left {
        if let Ok(tail) = rle_plane(rest, (left - n) as nat) {
            lemma_ahead_of(value, n, tail);
        }
    }
}

/// A byte twice, `0xFF` and four bytes stand for a run as long as the four bytes write in
/// little-endian order. A run that leaves fewer than four bytes for the raw tail is refused.
pub proof fn law_long_run(value: u8, n: nat, rest: Seq<u8>, left: nat)
    requires
        left > 5,
        n < 0x1_0000_0000,
    ensures
        rle_plane(seq![value, value, 0xFF] + little_endian(n) + rest, left) == if n + 4 > left {
            Err(NscodecError::RleRunExceedsPlane)
        } else {
            ahead_of(value, n, rle_plane(rest, (left - n) as nat))
        },
{
    let b = little_endian(n);
    let input = seq![value, value, 0xFF] + b + rest;
    assert(input.skip(7) =~= rest);
    assert(input[3] == b[0] && input[4] == b[1] && input[5] == b[2] && input[6] == b[3]);
    lemma_little_endian(n);
    if n + 4 <= left {
        if let Ok(tail) = rle_plane(rest, (left - n) as nat) {
            lemma_ahead_of(value, n, tail);
        }
    }
}

pub(crate) proof fn lemma_little_endian(n: nat)
    requires
        n < 0x1_0000_0000,
    ensures
        ({
            let b = little_endian(n);
            le_u32(b[0], b[1], b[2], b[3]) == n
        }),
{
    assert(n / 256 / 256 == n / 65536);
    assert(n / 65536 / 256 == n / 16777216);
    assert(n / 16777216 < 256);
}

/// The last four bytes of a plane, or all of a smaller one, are the bytes of the input; too few
/// of them are refused.
pub proof fn law_raw_bytes(input: Seq<u8>, left: nat)
    requires
        left <= 4,
    ensures
        input.len() < left ==> rle_plane(input, left) == Err::<Seq<u8>, NscodecError>(
            NscodecError::RleRawTailTruncated,
        ),
        input.len() >= left ==> rle_plane(input, left) == Ok::<Seq<u8>, NscodecError>(
            Seq::new(left, |i: int| input[i]),
        ),
{
    if input.len() >= left {
        assert(input.take(left as int) =~= Seq::new(left, |i: int| input[i]));
    }
}

/// Input that ends inside a coded piece is refused: before the piece or before the byte behind a
/// byte, before a length byte, or before the end of a four-byte length.
pub proof fn law_cut_input(value: u8, short: Seq<u8>, left: nat)
    requires
        left > 4,
        short.len() < 4,
    ensures
        rle_plane(Seq::empty(), left) == Err::<Seq<u8>, NscodecError>(
            NscodecError::RleInputExhausted,
        ),
        left > 5 ==> rle_plane(seq![value], left) == Err::<Seq<u8>, NscodecError>(
            NscodecError::RleInputExhausted,
        ),
        left > 5 ==> rle_plane(seq![value, value], left) == Err::<Seq<u8>, NscodecError>(
            NscodecError::RleRunLengthMissing,
        ),
        left > 5 ==> rle_plane(seq![value, value, 0xFF] + short, left) == Err::<
            Seq<u8>,
            NscodecError,
        >(NscodecError::RleRunLengthTruncated),
{
    let cut = seq![value, value, 0xFFu8] + short;
    assert(cut.len() < 7 && cut[2] == 0xFF);
}

/// A byte twice, a length byte and four bytes are a run and the raw tail behind it.
pub proof fn law_run_and_tail(value: u8, n: nat, tail: Seq<u8>)
    requires
        2 <= n <= 256,
        tail.len() == 4,
    ensures
        rle_plane(seq![value, value, (n - 2) as u8] + tail, n + 4) == Ok::<Seq<u8>, NscodecError>(
            run_then(value, n, tail),
        ),
{
    law_short_run(value, n, tail, n + 4);
    law_raw_bytes(tail, 4);
    assert(tail =~= Seq::new(4, |i: int| tail[i]));
}

/// How many bytes at the front of a plane are equal, of which `from` are known to be, up to
/// `limit`.
pub open spec fn equal_front(plane: Seq<u8>, from: nat, limit: nat) -> nat
    decreases limit - from,
{
    if from < limit && plane[from as int] == plane[0] {
        equal_front(plane, from + 1, limit)
    } else {
        from
    }
}

/// The run that the plain encoder takes off the front of a plane of more than four bytes.
pub open spec fn front_run(plane: Seq<u8>) -> nat {
    equal_front(
        plane,
        1,
        if plane.len() - 4 < 0xFFFF_FFFF {
            (plane.len() - 4) as nat
        } else {
            0xFFFF_FFFF
        },
    )
}

/// The plain encoder: the longest run first, and the last four bytes raw.
pub open spec fn plainly_coded(plane: Seq<u8>) -> Seq<u8>
    decreases plane.len(),
{
    if plane.len() <= 4 {
        plane
    } else {
        let n = front_run(plane);
        if n <= 1 {
            seq![plane[0]] + plainly_coded(plane.skip(1))
        } else if n > plane.len() {
            plane
        } else {
            let rest = plainly_coded(plane.skip(n as int));
            if n <= 256 {
                seq![plane[0], plane[0], (n - 2) as u8] + rest
            } else {
                seq![plane[0], plane[0], 0xFF] + little_endian(n) + rest
            }
        }
    }
}

proof fn lemma_equal_front(plane: Seq<u8>, from: nat, limit: nat)
    requires
        1 <= from <= limit,
        forall|i: int| 0 <= i < from ==> #[trigger] plane[i] == plane[0],
    ensures
        from <= equal_front(plane, from, limit) <= limit,
        forall|i: int|
            0 <= i < equal_front(plane, from, limit) ==> #[trigger] plane[i] == plane[0],
        equal_front(plane, from, limit) < limit ==> plane[equal_front(plane, from, limit) as int]
            != plane[0],
    decreases limit - from,
{
    if from < limit && plane[from as int] == plane[0] {
        lemma_equal_front(plane, from + 1, limit);
    }
}

proof fn lemma_plain_front(plane: Seq<u8>)
    requires
        plane.len() > 0,
    ensures
        plainly_coded(plane).len() > 0,
        plainly_coded(plane)[0] == plane[0],
{
}

/// Decoding undoes the plain encoder: every plane comes back.
pub proof fn law_plain_round_trip(plane: Seq<u8>)
    ensures
        rle_plane(plainly_coded(plane), plane.len()) == Ok::<Seq<u8>, NscodecError>(plane),
    decreases plane.len(),
{
    if plane.len() <= 4 {
        law_raw_bytes(plane, plane.len());
        assert(plane =~= Seq::new(plane.len(), |i: int| plane[i]));
    } else {
        let limit: nat = if plane.len() - 4 < 0xFFFF_FFFF {
            (plane.len() - 4) as nat
        } else {
            0xFFFF_FFFF
        };
        lemma_equal_front(plane, 1, limit);
        let n = front_run(plane);
        let rest = plane.skip(n as int);
        law_plain_round_trip(rest);
        let coded = plainly_coded(rest);
        assert(run_then(plane[0], n, rest) =~= plane);
        if n == 1 {
            if plane.len() == 5 {
                law_last_coded_byte(plane[0], coded);
            } else {
                lemma_plain_front(rest);
                law_single_byte(plane[0], coded, plane.len());
            }
        } else if n <= 256 {
            law_short_run(plane[0], n, coded, plane.len());
        } else {
            law_long_run(plane[0], n, coded, plane.len());
        }
    }
}

} // verus!
