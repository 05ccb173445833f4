//! Why an NSCodec stream is rejected.

use vstd::prelude::*;

verus! {

/// A defect of an NSCodec bitmap stream.
#[derive(Clone, Copy, Debug, PartialEq, Eq, Structural)]
pub enum NscodecError {
    /// The stream does not hold the fixed header.
    HeaderTooShort,
    /// The color loss level is outside `1..=7`.
    ColorLossLevelOutOfRange,
    /// The stream ends before the planes that its header declares.
    PlaneDataTooShort,
    /// A plane's input ends where a byte or its successor is expected.
    RleInputExhausted,
    /// A plane's input ends where a run length is expected.
    RleRunLengthMissing,
    /// A plane's input ends inside a four-byte run length.
    RleRunLengthTruncated,
    /// A run reaches past what is left of its plane ahead of the raw bytes at its end.
    RleRunExceedsPlane,
    /// A plane's input ends inside the raw bytes at its end.
    RleRawTailTruncated,
}

/// The sentence that describes a defect.
pub open spec fn reason_text(error: NscodecError) -> Seq<char> {
    match error {
        NscodecError::HeaderTooShort => "stream shorter than 20-byte header"@,
        NscodecError::ColorLossLevelOutOfRange => "ColorLossLevel out of [1,7]"@,
        NscodecError::PlaneDataTooShort => "plane data shorter than declared counts"@,
        NscodecError::RleInputExhausted => "RLE input exhausted"@,
        NscodecError::RleRunLengthMissing => "RLE run length missing"@,
        NscodecError::RleRunLengthTruncated => "RLE u32 run length truncated"@,
        NscodecError::RleRunExceedsPlane => "RLE run exceeds plane size"@,
        NscodecError::RleRawTailTruncated => "RLE raw tail truncated"@,
    }
}

impl NscodecError {
    /// A sentence that describes the defect.
    pub fn reason(&self) -> (text: &'static str)
        ensures
            text@ == reason_text(*self),
    {
        match self {
            NscodecError::HeaderTooShort => "stream shorter than 20-byte header",
            NscodecError::ColorLossLevelOutOfRange => "ColorLossLevel out of [1,7]",
            NscodecError::PlaneDataTooShort => "plane data shorter than declared counts",
            NscodecError::RleInputExhausted => "RLE input exhausted",
            NscodecError::RleRunLengthMissing => "RLE run length missing",
            NscodecError::RleRunLengthTruncated => "RLE u32 run length truncated",
            NscodecError::RleRunExceedsPlane => "RLE run exceeds plane size",
            NscodecError::RleRawTailTruncated => "RLE raw tail truncated",
        }
    }
}

/// A result over a vector, as a result over its contents.
pub open spec fn contents(result: Result<Vec<u8>, NscodecError>) -> Result<Seq<u8>, NscodecError> {
    match result {
        Ok(bytes) => Ok(bytes@),
        Err(error) => Err(error),
    }
}

/// Taking the contents loses nothing: success keeps its bytes, and a defect stays the same one.
pub proof fn law_contents(result: Result<Vec<u8>, NscodecError>)
    ensures
        result is Ok <==> contents(result) is Ok,
        result is Ok ==> contents(result)->Ok_0 == result->Ok_0@,
        result is Err ==> contents(result)->Err_0 == result->Err_0,
{
}

/// The sentence tells which defect it is.
pub proof fn law_reasons_distinct(a: NscodecError, b: NscodecError)
    requires
        a != b,
    ensures
        reason_text(a) != reason_text(b),
{
    reveal_strlit("stream shorter than 20-byte header");
    reveal_strlit("ColorLossLevel out of [1,7]");
    reveal_strlit("plane data shorter than declared counts");
    reveal_strlit("RLE input exhausted");
    reveal_strlit("RLE run length missing");
    reveal_strlit("RLE u32 run length truncated");
    reveal_strlit("RLE run exceeds plane size");
    reveal_strlit("RLE raw tail truncated");
    let x = reason_text(a);
    let y = reason_text(b);
    if x.len() == y.len() {
        assert(x[5] != y[5]);
    }
}

} // verus!
