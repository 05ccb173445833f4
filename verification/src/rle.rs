//! Run-length coding of NSCodec color planes.
//!
//! A byte that is followed by an equal byte starts a run: a length byte comes next and stands for
//! that many bytes plus two, or the marker `0xFF` and a little-endian 32-bit length. Any other
//! byte stands for itself. The final four bytes of a plane are stored raw: no run reaches into
//! them.

use vstd::prelude::*;

use crate::error::{contents, NscodecError};

verus! {

/// One piece of coded input: `size` input bytes that stand for `count` copies of `value`.
pub struct Piece {
    pub value: u8,
    pub count: nat,
    pub size: nat,
}

/// The number that four bytes write in little-endian order.
pub open spec fn le_u32(b0: u8, b1: u8, b2: u8, b3: u8) -> nat {
    (b0 + 0x100 * b1 + 0x1_0000 * b2 + 0x100_0000 * b3) as nat
}

/// `n` copies of `value`.
pub open spec fn repeated(value: u8, n: nat) -> Seq<u8> {
    Seq::new(n, |i: int| value)
}

/// The piece at the front of `input`, where `left` more plane bytes are expected, more than four.
pub open spec fn next_piece(input: Seq<u8>, left: nat) -> Result<Piece, NscodecError> {
    if input.len() == 0 {
        Err(NscodecError::RleInputExhausted)
    } else if left == 5 {
        Ok(Piece { value: input[0], count: 1, size: 1 })
    } else if input.len() == 1 {
        Err(NscodecError::RleInputExhausted)
    } else if input[1] != input[0] {
        Ok(Piece { value: input[0], count: 1, size: 1 })
    } else if input.len() == 2 {
        Err(NscodecError::RleRunLengthMissing)
    } else if input[2] < 0xFF {
        Ok(Piece { value: input[0], count: (input[2] + 2) as nat, size: 3 })
    } else if input.len() < 7 {
        Err(NscodecError::RleRunLengthTruncated)
    } else {
        Ok(
            Piece {
                value: input[0],
                count: le_u32(input[3], input[4], input[5], input[6]),
                size: 7,
            },
        )
    }
}

/// The `left` plane bytes that `input` stands for; input behind them is ignored.
pub open spec fn rle_plane(input: Seq<u8>, left: nat) -> Result<Seq<u8>, NscodecError>
    decreases input.len(),
{
    if left <= 4 {
        if input.len() < left {
            Err(NscodecError::RleRawTailTruncated)
        } else {
            Ok(input.take(left as int))
        }
    } else {
        match next_piece(input, left) {
            Err(error) => Err(error),
            Ok(piece) => if piece.count + 4 > left {
                Err(NscodecError::RleRunExceedsPlane)
            } else {
                match rle_plane(input.skip(piece.size as int), (left - piece.count) as nat) {
                    Err(error) => Err(error),
                    Ok(rest) => Ok(repeated(piece.value, piece.count) + rest),
                }
            },
        }
    }
}

/// Puts decoded bytes ahead of what the rest of the input decodes to.
spec fn prefixed(
    head: Seq<u8>,
    rest: Result<Seq<u8>, NscodecError>,
) -> Result<Seq<u8>, NscodecError> {
    match rest {
        Err(error) => Err(error),
        Ok(tail) => Ok(head + tail),
    }
}

/// Computes the number that four bytes write in little-endian order.
pub fn read_le_u32(b0: u8, b1: u8, b2: u8, b3: u8) -> (value: u32)
    ensures
        value == le_u32(b0, b1, b2, b3),
{
    b0 as u32 + 0x100 * (b1 as u32) + 0x1_0000 * (b2 as u32) + 0x100_0000 * (b3 as u32)
}

/// Decodes one plane of `original_size` bytes.
pub fn rle_decode(input: &[u8], original_size: usize) -> (plane: Result<Vec<u8>, NscodecError>)
    ensures
        contents(plane) == rle_plane(input@, original_size as nat),
{
    let mut out: Vec<u8> = Vec::with_capacity(original_size);
    let mut left: usize = original_size;
    let mut pos: usize = 0;
    assert(input@.skip(0) =~= input@);
    assert(forall|rest: Seq<u8>| #![auto] Seq::<u8>::empty() + rest =~= rest);
    while left > 4
        invariant
            pos <= input@.len(),
            left <= original_size,
            out@.len() == original_size - left,
            rle_plane(input@, original_size as nat) == prefixed(
                out@,
                rle_plane(input@.skip(pos as int), left as nat),
            ),
        decreases input@.len() - pos,
    {
        let ghost ahead = input@.skip(pos as int);
        let ghost before = out@;
        let remaining: usize = input.len() - pos;
        if remaining == 0 {
            return Err(NscodecError::RleInputExhausted);
        }
        let value: u8 = input[pos];
        let mut count: usize = 1;
        let mut size: usize = 1;
        if left > 5 {
            if remaining == 1 {
                return Err(NscodecError::RleInputExhausted);
            }
            if input[pos + 1] == value {
                if remaining == 2 {
                    return Err(NscodecError::RleRunLengthMissing);
                }
                let len_byte: u8 = input[pos + 2];
                if len_byte < 0xFF {
                    count = len_byte as usize + 2;
                    size = 3;
                } else {
                    if remaining < 7 {
                        return Err(NscodecError::RleRunLengthTruncated);
                    }
                    count = read_le_u32(
                        input[pos + 3],
                        input[pos + 4],
                        input[pos + 5],
                        input[pos + 6],
                    ) as usize;
                    size = 7;
                }
            }
        }
        assert(next_piece(ahead, left as nat) == Ok::<Piece, NscodecError>(
            Piece { value, count: count as nat, size: size as nat },
        ));
        if count > left - 4 {
            return Err(NscodecError::RleRunExceedsPlane);
        }
        let new_len: usize = out.len() + count;
        out.resize(new_len, value);
        pos = pos + size;
        left = left - count;
        proof {
            assert(out@ =~= before + repeated(value, count as nat));
            assert(input@.skip(pos as int) =~= ahead.skip(size as int));
            let rest = rle_plane(input@.skip(pos as int), left as nat);
            if let Ok(tail) = rest {
                assert(before + (repeated(value, count as nat) + tail) =~= out@ + tail);
            }
        }
    }
    if input.len() - pos < left {
        return Err(NscodecError::RleRawTailTruncated);
    }
    let tail = vstd::slice::slice_subrange(input, pos, pos + left);
    assert(tail@ =~= input@.skip(pos as int).take(left as int));
    let ghost before = out@;
    out.extend_from_slice(tail);
    assert(out@ =~= before + tail@);
    Ok(out)
}

/// A decoded plane has the size that was asked for.
pub proof fn law_plane_size(input: Seq<u8>, left: nat)
    ensures
        rle_plane(input, left) matches Ok(plane) ==> plane.len() == left,
    decreases input.len(),
{
    if left > 4 {
        if let Ok(piece) = next_piece(input, left) {
            if piece.count + 4 <= left {
                law_plane_size(input.skip(piece.size as int), (left - piece.count) as nat);
            }
        }
    }
}

/// Input behind the last byte that a plane needs does not change the plane.
pub proof fn law_excess_input_ignored(input: Seq<u8>, left: nat, excess: Seq<u8>)
    requires
        rle_plane(input, left) is Ok,
    ensures
        rle_plane(input + excess, left) == rle_plane(input, left),
    decreases input.len(),
{
    let longer = input + excess;
    if left <= 4 {
        assert(longer.take(left as int) =~= input.take(left as int));
    } else {
        let piece = next_piece(input, left)->Ok_0;
        assert(next_piece(longer, left) == next_piece(input, left));
        law_excess_input_ignored(
            input.skip(piece.size as int),
            (left - piece.count) as nat,
            excess,
        );
        assert(longer.skip(piece.size as int) =~= input.skip(piece.size as int) + excess);
    }
}

/// The raw bytes that end a plane: what is left of the input, and how many plane bytes it holds,
/// once every coded piece is consumed.
pub open spec fn raw_tail(input: Seq<u8>, left: nat) -> (Seq<u8>, nat)
    decreases input.len(),
{
    if left <= 4 {
        (input, left)
    } else {
        match next_piece(input, left) {
            Err(_) => (input, left),
            Ok(piece) => if piece.count + 4 > left {
                (input, left)
            } else {
                raw_tail(input.skip(piece.size as int), (left - piece.count) as nat)
            },
        }
    }
}

/// The final four bytes of a decoded plane, or the whole of a smaller one, are stored raw: they
/// are the input bytes that follow its coded pieces.
pub proof fn law_tail_is_raw(input: Seq<u8>, left: nat)
    requires
        rle_plane(input, left) is Ok,
    ensures
        ({
            let plane = rle_plane(input, left)->Ok_0;
            let (tail, n) = raw_tail(input, left);
            &&& n == if left < 4 {
                left
            } else {
                4
            }
            &&& n <= tail.len()
            &&& plane.len() == left
            &&& plane.skip(left - n) == tail.take(n as int)
            &&& tail.len() <= input.len()
            &&& tail == input.skip(input.len() - tail.len())
        }),
    decreases input.len(),
{
    let plane = rle_plane(input, left)->Ok_0;
    if left <= 4 {
        assert(plane.skip(0) =~= input.take(left as int));
        assert(input.skip(0) =~= input);
    } else {
        let piece = next_piece(input, left)->Ok_0;
        let ahead = input.skip(piece.size as int);
        let less = (left - piece.count) as nat;
        law_tail_is_raw(ahead, less);
        let rest = rle_plane(ahead, less)->Ok_0;
        let n = raw_tail(input, left).1;
        assert(plane =~= repeated(piece.value, piece.count) + rest);
        assert(plane.skip(left - n) =~= rest.skip(less - n));
        let tail = raw_tail(input, left).0;
        assert(ahead.skip(ahead.len() - tail.len()) =~= input.skip(input.len() - tail.len()));
    }
}

} // verus!
