//! NSCodec (MS-RDPNSC) bitmap stream decoder.
//!
//! A stream holds four planes, luma, orange chroma, green chroma and alpha, each of them absent,
//! raw or run-length coded. Chroma may have lost low bits, and may be subsampled by two in both
//! directions.

use vstd::arithmetic::div_mod::lemma_fundamental_div_mod_converse;
use vstd::arithmetic::power2::{lemma2_to64, pow2};
use vstd::prelude::*;

use crate::error::{contents, NscodecError};
use crate::rle::{law_plane_size, le_u32, read_le_u32, repeated, rle_decode, rle_plane};

verus! {

/// The number of bytes ahead of the first plane.
pub const HEADER_LEN: usize = 20;

/// The declared byte count of plane `i`.
pub open spec fn plane_count(data: Seq<u8>, i: int) -> nat {
    le_u32(data[4 * i], data[4 * i + 1], data[4 * i + 2], data[4 * i + 3])
}

/// The declared byte count of the planes ahead of plane `i`.
pub open spec fn plane_offset(data: Seq<u8>, i: int) -> nat
    decreases i,
{
    if i <= 0 {
        0
    } else {
        plane_offset(data, i - 1) + plane_count(data, i - 1)
    }
}

/// The bytes of plane `i` in the stream.
pub open spec fn plane_chunk(data: Seq<u8>, i: int) -> Seq<u8> {
    let start = HEADER_LEN + plane_offset(data, i);
    data.subrange(start, start + plane_count(data, i))
}

/// Whether chroma is subsampled.
pub open spec fn subsampled(data: Seq<u8>) -> bool {
    data[17] != 0
}

/// The width rounded up to a multiple of eight.
pub open spec fn rounded_width(w: int) -> int {
    (w + 7) / 8 * 8
}

/// The height rounded up to a multiple of two.
pub open spec fn rounded_height(h: int) -> int {
    (h + 1) / 2 * 2
}

/// The number of bytes in a row of plane `i`.
pub open spec fn plane_stride(w: int, subsampling: bool, i: int) -> int {
    if !subsampling || i == 3 {
        w
    } else if i == 0 {
        rounded_width(w)
    } else {
        rounded_width(w) / 2
    }
}

/// The number of rows of plane `i`.
pub open spec fn plane_rows(h: int, subsampling: bool, i: int) -> int {
    if subsampling && (i == 1 || i == 2) {
        rounded_height(h) / 2
    } else {
        h
    }
}

/// The number of bytes of plane `i` once it is decoded.
pub open spec fn plane_size(w: int, h: int, subsampling: bool, i: int) -> nat {
    (plane_stride(w, subsampling, i) * plane_rows(h, subsampling, i)) as nat
}

/// Plane `i`: all `0xFF` where it is absent, run-length coded where it is declared smaller than
/// its size, else raw.
pub open spec fn plane(data: Seq<u8>, w: int, h: int, i: int) -> Result<Seq<u8>, NscodecError> {
    let size = plane_size(w, h, subsampled(data), i);
    if plane_count(data, i) == 0 {
        Ok(repeated(0xFF, size))
    } else if plane_count(data, i) < size {
        rle_plane(plane_chunk(data, i), size)
    } else {
        Ok(plane_chunk(data, i).take(size as int))
    }
}

/// The four planes of a picture, as they are after run-length decoding.
pub struct Planes {
    pub luma: Seq<u8>,
    pub orange: Seq<u8>,
    pub green: Seq<u8>,
    pub alpha: Seq<u8>,
}

/// The position in plane `i` of the byte for the pixel at `row` and `col`.
pub open spec fn plane_index(w: int, subsampling: bool, i: int, row: int, col: int) -> int {
    if subsampling && (i == 1 || i == 2) {
        (row / 2) * plane_stride(w, subsampling, i) + col / 2
    } else {
        row * plane_stride(w, subsampling, i) + col
    }
}

/// A byte read as a two's complement number.
pub open spec fn as_signed(b: int) -> int {
    if b < 128 {
        b
    } else {
        b - 256
    }
}

/// Brings a chroma byte back to its scale: the lost low bits come back as zeros, and the low
/// eight bits of the result are a signed number.
pub open spec fn recovered(chroma: u8, color_loss_level: u8) -> int {
    as_signed((chroma * pow2((color_loss_level - 1) as nat)) % 256)
}

/// Holds a color value inside a byte.
pub open spec fn clamped(value: int) -> u8 {
    if value < 0 {
        0
    } else if value > 255 {
        255
    } else {
        value as u8
    }
}

/// The blue, green, red and alpha bytes of a pixel.
pub open spec fn bgra(y: u8, co: int, cg: int, alpha: u8) -> Seq<u8> {
    seq![clamped(y - co - cg), clamped(y + cg), clamped(y + co - cg), alpha]
}

/// The pixel at `row` and `col`.
pub open spec fn pixel_at(
    planes: Planes,
    w: int,
    subsampling: bool,
    color_loss_level: u8,
    row: int,
    col: int,
) -> Seq<u8> {
    bgra(
        planes.luma[plane_index(w, subsampling, 0, row, col)],
        recovered(planes.orange[plane_index(w, subsampling, 1, row, col)], color_loss_level),
        recovered(planes.green[plane_index(w, subsampling, 2, row, col)], color_loss_level),
        planes.alpha[plane_index(w, subsampling, 3, row, col)],
    )
}

/// The picture, row by row, four bytes for each pixel.
pub open spec fn picture(
    planes: Planes,
    w: int,
    h: int,
    subsampling: bool,
    color_loss_level: u8,
) -> Seq<u8> {
    Seq::new(
        (4 * (w * h)) as nat,
        |k: int|
            pixel_at(planes, w, subsampling, color_loss_level, k / 4 / w, k / 4 % w)[k % 4],
    )
}

/// What a stream decodes to for a picture of the given dimensions.
pub open spec fn nscodec_picture(data: Seq<u8>, width: u16, height: u16) -> Result<
    Seq<u8>,
    NscodecError,
> {
    let w = width as int;
    let h = height as int;
    if data.len() < HEADER_LEN {
        Err(NscodecError::HeaderTooShort)
    } else if !(1 <= data[16] <= 7) {
        Err(NscodecError::ColorLossLevelOutOfRange)
    } else if data.len() - HEADER_LEN < plane_offset(data, 4) {
        Err(NscodecError::PlaneDataTooShort)
    } else if w == 0 || h == 0 {
        Ok(Seq::empty())
    } else {
        match (plane(data, w, h, 0), plane(data, w, h, 1), plane(data, w, h, 2), plane(
            data,
            w,
            h,
            3,
        )) {
            (Ok(luma), Ok(orange), Ok(green), Ok(alpha)) => Ok(
                picture(
                    Planes { luma, orange, green, alpha },
                    w,
                    h,
                    subsampled(data),
                    data[16],
                ),
            ),
            (Err(error), _, _, _) => Err(error),
            (_, Err(error), _, _) => Err(error),
            (_, _, Err(error), _) => Err(error),
            (_, _, _, Err(error)) => Err(error),
        }
    }
}

/// A position inside a row and a row inside a plane make a position inside the plane.
proof fn lemma_inside_plane(row: int, col: int, stride: int, rows: int)
    requires
        0 <= row < rows,
        0 <= col < stride,
    ensures
        0 <= row * stride <= row * stride + col < stride * rows,
{
    assert(0 <= row * stride <= row * stride + col < stride * rows) by (nonlinear_arith)
        requires
            0 <= row < rows,
            0 <= col < stride,
    ;
}

/// Every pixel of the picture finds its byte inside each plane.
pub proof fn law_pixels_inside_planes(w: int, h: int, subsampling: bool, i: int, row: int, col: int)
    requires
        0 <= i < 4,
        0 <= row < h,
        0 <= col < w,
    ensures
        0 <= plane_index(w, subsampling, i, row, col) < plane_size(w, h, subsampling, i),
{
    let stride = plane_stride(w, subsampling, i);
    let rows = plane_rows(h, subsampling, i);
    if subsampling && (i == 1 || i == 2) {
        lemma_inside_plane(row / 2, col / 2, stride, rows);
    } else {
        lemma_inside_plane(row, col, stride, rows);
    }
}

/// Computes the size of plane `i`.
fn size_of_plane(width: u16, height: u16, subsampling: bool, i: usize) -> (size: usize)
    requires
        i < 4,
    ensures
        size == plane_size(width as int, height as int, subsampling, i as int),
{
    let w: usize = width as usize;
    let h: usize = height as usize;
    let mut stride: usize = w;
    let mut rows: usize = h;
    if subsampling && i != 3 {
        stride = (w + 7) / 8 * 8;
        if i != 0 {
            stride = stride / 2;
            rows = (h + 1) / 2;
        }
    }
    assert(stride * rows <= 65536 * 65535) by (nonlinear_arith)
        requires
            stride <= 65536,
            rows <= 65535,
    ;
    assert(stride * rows >= 0) by (nonlinear_arith)
        requires
            stride >= 0,
            rows >= 0,
    ;
    stride * rows
}

/// Decodes plane `i`, whose `count` bytes start at `start`.
fn load_plane(
    data: &[u8],
    width: u16,
    height: u16,
    i: usize,
    start: usize,
    count: usize,
) -> (bytes: Result<Vec<u8>, NscodecError>)
    requires
        data@.len() >= HEADER_LEN,
        i < 4,
        start == HEADER_LEN + plane_offset(data@, i as int),
        count == plane_count(data@, i as int),
        start + count <= data@.len(),
    ensures
        contents(bytes) == plane(data@, width as int, height as int, i as int),
        bytes matches Ok(b) ==> b@.len() == plane_size(
            width as int,
            height as int,
            subsampled(data@),
            i as int,
        ),
{
    let size: usize = size_of_plane(width, height, data[17] != 0, i);
    let chunk = vstd::slice::slice_subrange(data, start, start + count);
    assert(chunk@ =~= plane_chunk(data@, i as int));
    if count == 0 {
        let bytes: Vec<u8> = vec![0xFF; size];
        assert(bytes@ =~= repeated(0xFF, size as nat));
        Ok(bytes)
    } else if count < size {
        proof {
            law_plane_size(chunk@, size as nat);
        }
        rle_decode(chunk, size)
    } else {
        let raw = vstd::slice::slice_subrange(chunk, 0, size);
        assert(raw@ =~= chunk@.take(size as int));
        Ok(vstd::slice::slice_to_vec(raw))
    }
}

/// Brings a chroma byte back to its scale.
fn recover(chroma: u8, color_loss_level: u8) -> (value: i16)
    requires
        1 <= color_loss_level <= 7,
    ensures
        value == recovered(chroma, color_loss_level),
        -128 <= value <= 127,
{
    let shift: u8 = color_loss_level - 1;
    let low: u8 = chroma << shift;
    proof {
        lemma2_to64();
        assert((shift == 0 ==> low == (chroma * 1) % 256) && (shift == 1 ==> low == (chroma * 2)
            % 256) && (shift == 2 ==> low == (chroma * 4) % 256) && (shift == 3 ==> low == (chroma
            * 8) % 256) && (shift == 4 ==> low == (chroma * 16) % 256) && (shift == 5 ==> low == (
        chroma * 32) % 256) && (shift == 6 ==> low == (chroma * 64) % 256)) by (bit_vector)
            requires
                low == chroma << shift,
        ;
    }
    if low < 128 {
        low as i16
    } else {
        low as i16 - 256
    }
}

/// Holds a color value inside a byte.
fn clamp_byte(value: i16) -> (byte: u8)
    ensures
        byte == clamped(value as int),
{
    if value < 0 {
        0
    } else if value > 255 {
        255
    } else {
        value as u8
    }
}

/// Appends a pixel.
fn push_bgra(out: &mut Vec<u8>, y: u8, co: i16, cg: i16, alpha: u8)
    requires
        -128 <= co <= 127,
        -128 <= cg <= 127,
    ensures
        final(out)@ == old(out)@ + bgra(y, co as int, cg as int, alpha),
{
    let luma: i16 = y as i16;
    out.push(clamp_byte(luma - co - cg));
    out.push(clamp_byte(luma + cg));
    out.push(clamp_byte(luma + co - cg));
    out.push(alpha);
    assert(out@ =~= old(out)@ + bgra(y, co as int, cg as int, alpha));
}

/// Computes the position in a plane of the byte for a pixel; `halved` says whether the plane has
/// half as many rows and columns as the picture.
fn locate(row: usize, col: usize, stride: usize, halved: bool) -> (at: usize)
    requires
        row < 65535,
        col < 65535,
        stride <= 65536,
    ensures
        at == if halved {
            (row / 2) * stride + col / 2
        } else {
            row * stride + col
        },
{
    assert(row * stride + col <= 65534 * 65536 + 65534) by (nonlinear_arith)
        requires
            row <= 65534,
            col <= 65534,
            stride <= 65536,
    ;
    if halved {
        assert((row / 2) * stride <= row * stride) by (nonlinear_arith)
            requires
                row >= 0,
                stride >= 0,
        ;
        (row / 2) * stride + col / 2
    } else {
        row * stride + col
    }
}

/// Turns the planes into pixels.
#[verifier::rlimit(30)]
fn compose(
    luma: &Vec<u8>,
    orange: &Vec<u8>,
    green: &Vec<u8>,
    alpha: &Vec<u8>,
    width: u16,
    height: u16,
    subsampling: bool,
    color_loss_level: u8,
) -> (out: Vec<u8>)
    requires
        width > 0,
        1 <= color_loss_level <= 7,
        luma@.len() == plane_size(width as int, height as int, subsampling, 0),
        orange@.len() == plane_size(width as int, height as int, subsampling, 1),
        green@.len() == plane_size(width as int, height as int, subsampling, 2),
        alpha@.len() == plane_size(width as int, height as int, subsampling, 3),
    ensures
        out@ == picture(
            Planes { luma: luma@, orange: orange@, green: green@, alpha: alpha@ },
            width as int,
            height as int,
            subsampling,
            color_loss_level,
        ),
{
    let w: usize = width as usize;
    let h: usize = height as usize;
    let rw: usize = (w + 7) / 8 * 8;
    let luma_stride: usize = if subsampling { rw } else { w };
    let chroma_stride: usize = if subsampling { rw / 2 } else { w };
    let ghost planes = Planes { luma: luma@, orange: orange@, green: green@, alpha: alpha@ };
    let ghost pic = picture(planes, w as int, h as int, subsampling, color_loss_level);
    let mut out: Vec<u8> = Vec::new();
    let mut row: usize = 0;
    assert(out@ =~= pic.take(0));
    while row < h
        invariant
            w == width,
            h == height,
            w > 0,
            row <= h,
            1 <= color_loss_level <= 7,
            luma_stride == plane_stride(w as int, subsampling, 0),
            chroma_stride == plane_stride(w as int, subsampling, 1),
            luma_stride <= 65536,
            chroma_stride <= 65536,
            planes == (Planes { luma: luma@, orange: orange@, green: green@, alpha: alpha@ }),
            luma@.len() == plane_size(w as int, h as int, subsampling, 0),
            orange@.len() == plane_size(w as int, h as int, subsampling, 1),
            green@.len() == plane_size(w as int, h as int, subsampling, 2),
            alpha@.len() == plane_size(w as int, h as int, subsampling, 3),
            pic == picture(planes, w as int, h as int, subsampling, color_loss_level),
            out@ == pic.take(4 * (row * w)),
        decreases h - row,
    {
        let mut col: usize = 0;
        while col < w
            invariant
                w == width,
                h == height,
                w > 0,
                row < h,
                col <= w,
                1 <= color_loss_level <= 7,
                luma_stride == plane_stride(w as int, subsampling, 0),
                chroma_stride == plane_stride(w as int, subsampling, 1),
                luma_stride <= 65536,
                chroma_stride <= 65536,
                planes == (Planes { luma: luma@, orange: orange@, green: green@, alpha: alpha@ }),
                luma@.len() == plane_size(w as int, h as int, subsampling, 0),
                orange@.len() == plane_size(w as int, h as int, subsampling, 1),
                green@.len() == plane_size(w as int, h as int, subsampling, 2),
                alpha@.len() == plane_size(w as int, h as int, subsampling, 3),
                pic == picture(planes, w as int, h as int, subsampling, color_loss_level),
                out@ == pic.take(4 * (row * w + col)),
            decreases w - col,
        {
            let ghost before = out@;
            let ghost at = row * w + col;
            proof {
                law_pixels_inside_planes(w as int, h as int, subsampling, 0, row as int, col as int);
                law_pixels_inside_planes(w as int, h as int, subsampling, 1, row as int, col as int);
                law_pixels_inside_planes(w as int, h as int, subsampling, 2, row as int, col as int);
                law_pixels_inside_planes(w as int, h as int, subsampling, 3, row as int, col as int);
                lemma_inside_plane(row as int, col as int, w as int, h as int);
                lemma_fundamental_div_mod_converse(at, w as int, row as int, col as int);
            }
            let y: u8 = luma[locate(row, col, luma_stride, false)];
            let chroma_at: usize = locate(row, col, chroma_stride, subsampling);
            let co: i16 = recover(orange[chroma_at], color_loss_level);
            let cg: i16 = recover(green[chroma_at], color_loss_level);
            let a: u8 = alpha[locate(row, col, w, false)];
            push_bgra(&mut out, y, co, cg, a);
            proof {
                let pixel = pixel_at(
                    planes,
                    w as int,
                    subsampling,
                    color_loss_level,
                    row as int,
                    col as int,
                );
                assert(out@ == before + pixel);
                assert forall|k: int| 4 * at <= k < 4 * at + 4 implies pic[k] == pixel[k - 4 * at] by {
                    assert(k / 4 == at && k % 4 == k - 4 * at);
                }
                assert(out@ =~= pic.take(4 * (at + 1)));
            }
            col = col + 1;
        }
        row = row + 1;
        assert(row * w == (row - 1) * w + w) by (nonlinear_arith);
    }
    assert(h * w == w * h) by (nonlinear_arith);
    assert(pic.take(pic.len() as int) =~= pic);
    out
}

/// Decodes an NSCODEC_BITMAP_STREAM into BGRA pixels (`width * height * 4` bytes).
#[verifier::rlimit(30)]
pub fn decode_nscodec(data: &[u8], width: u16, height: u16) -> (pixels: Result<
    Vec<u8>,
    NscodecError,
>)
    ensures
        contents(pixels) == nscodec_picture(data@, width, height),
{
    if data.len() < HEADER_LEN {
        return Err(NscodecError::HeaderTooShort);
    }
    let color_loss_level: u8 = data[16];
    if color_loss_level < 1 || color_loss_level > 7 {
        return Err(NscodecError::ColorLossLevelOutOfRange);
    }
    let subsampling = data[17] != 0;
    let n0: u32 = read_le_u32(data[0], data[1], data[2], data[3]);
    let n1: u32 = read_le_u32(data[4], data[5], data[6], data[7]);
    let n2: u32 = read_le_u32(data[8], data[9], data[10], data[11]);
    let n3: u32 = read_le_u32(data[12], data[13], data[14], data[15]);
    proof {
        reveal_with_fuel(plane_offset, 5);
    }
    let total: u64 = n0 as u64 + n1 as u64 + n2 as u64 + n3 as u64;
    if ((data.len() - HEADER_LEN) as u64) < total {
        return Err(NscodecError::PlaneDataTooShort);
    }
    if width == 0 || height == 0 {
        return Ok(Vec::new());
    }
    let s1: usize = HEADER_LEN + n0 as usize;
    let s2: usize = s1 + n1 as usize;
    let s3: usize = s2 + n2 as usize;
    let luma = load_plane(data, width, height, 0, HEADER_LEN, n0 as usize)?;
    let orange = load_plane(data, width, height, 1, s1, n1 as usize)?;
    let green = load_plane(data, width, height, 2, s2, n2 as usize)?;
    let alpha = load_plane(data, width, height, 3, s3, n3 as usize)?;
    Ok(compose(&luma, &orange, &green, &alpha, width, height, subsampling, color_loss_level))
}

/// A decoded picture holds four bytes for each pixel.
pub proof fn law_picture_size(data: Seq<u8>, width: u16, height: u16)
    ensures
        nscodec_picture(data, width, height) matches Ok(pixels) ==> pixels.len() == width * height
            * 4,
{
    assert(width * height >= 0) by (nonlinear_arith)
        requires
            width >= 0,
            height >= 0,
    ;
    assert(width == 0 || height == 0 ==> width * height == 0) by (nonlinear_arith);
}

/// Pixels stand row by row, each as its blue, green, red and alpha byte.
pub proof fn law_pixel_order(
    planes: Planes,
    w: int,
    h: int,
    subsampling: bool,
    color_loss_level: u8,
    row: int,
    col: int,
)
    requires
        0 <= row < h,
        0 <= col < w,
    ensures
        0 <= 4 * (row * w + col),
        4 * (row * w + col) + 4 <= picture(planes, w, h, subsampling, color_loss_level).len(),
        picture(planes, w, h, subsampling, color_loss_level).subrange(
            4 * (row * w + col),
            4 * (row * w + col) + 4,
        ) == pixel_at(planes, w, subsampling, color_loss_level, row, col),
{
    let at = row * w + col;
    lemma_inside_plane(row, col, w, h);
    lemma_fundamental_div_mod_converse(at, w, row, col);
    let pic = picture(planes, w, h, subsampling, color_loss_level);
    let pixel = pixel_at(planes, w, subsampling, color_loss_level, row, col);
    assert forall|k: int| 0 <= k < 4 implies pic[4 * at + k] == pixel[k] by {
        assert((4 * at + k) / 4 == at && (4 * at + k) % 4 == k);
    }
    assert(pic.subrange(4 * at, 4 * at + 4) =~= pixel);
}

/// Without chroma a pixel is gray: blue, green and red equal its luma, at every color loss level.
pub proof fn law_gray(y: u8, alpha: u8, color_loss_level: u8)
    ensures
        bgra(y, recovered(0, color_loss_level), recovered(0, color_loss_level), alpha) == seq![
            y,
            y,
            y,
            alpha,
        ],
{
    assert(0 * pow2((color_loss_level - 1) as nat) == 0) by (nonlinear_arith);
}

/// At color loss level 1 a chroma byte is its own two's complement value.
pub proof fn law_lossless_chroma(chroma: u8)
    ensures
        recovered(chroma, 1) == as_signed(chroma as int),
{
    lemma2_to64();
    assert(pow2((1u8 - 1) as nat) == 1);
}

/// With subsampling the four pixels of a two by two block share their chroma.
pub proof fn law_block_shares_chroma(w: int, i: int, row: int, col: int)
    requires
        i == 1 || i == 2,
    ensures
        plane_index(w, true, i, 2 * row, 2 * col) == plane_index(w, true, i, 2 * row, 2 * col + 1),
        plane_index(w, true, i, 2 * row, 2 * col) == plane_index(w, true, i, 2 * row + 1, 2 * col),
        plane_index(w, true, i, 2 * row, 2 * col) == plane_index(
            w,
            true,
            i,
            2 * row + 1,
            2 * col + 1,
        ),
{
}

/// Bytes behind the declared planes do not change the picture.
pub proof fn law_excess_data_ignored(data: Seq<u8>, width: u16, height: u16, excess: Seq<u8>)
    requires
        nscodec_picture(data, width, height) is Ok,
    ensures
        nscodec_picture(data + excess, width, height) == nscodec_picture(data, width, height),
{
    let longer = data + excess;
    reveal_with_fuel(plane_offset, 5);
    assert(plane_chunk(longer, 0) =~= plane_chunk(data, 0));
    assert(plane_chunk(longer, 1) =~= plane_chunk(data, 1));
    assert(plane_chunk(longer, 2) =~= plane_chunk(data, 2));
    assert(plane_chunk(longer, 3) =~= plane_chunk(data, 3));
}

} // verus!
