//! The NSCodec bitmap stream, described byte for byte: how a stream is framed, which bytes of its
//! planes a pixel is made of, and which defect is reported.

use vstd::arithmetic::power2::{lemma2_to64, lemma_pow2_unfold, pow2};
use vstd::prelude::*;

use crate::error::NscodecError;
use crate::nscodec::{
    bgra, law_pixel_order, nscodec_picture, picture, pixel_at, plane, plane_chunk, plane_count,
    plane_index, plane_offset, plane_size, plane_stride, recovered, subsampled, Planes,
};
use crate::rle::{repeated, rle_plane};
use crate::rle_format::{lemma_little_endian, little_endian};

verus! {

/// At color loss level 1 a chroma byte is a two's complement number.
pub proof fn law_chroma_at_level_one(chroma: u8)
    ensures
        -128 <= recovered(chroma, 1) <= 127,
        (recovered(chroma, 1) - chroma) % 256 == 0,
{
    lemma2_to64();
    assert(pow2((1u8 - 1) as nat) == 1);
}

/// Each color loss level doubles what a chroma byte stands for, modulo 256, as a number in
/// `-128..=127`.
pub proof fn law_chroma_doubles(chroma: u8, color_loss_level: u8)
    requires
        1 <= color_loss_level <= 6,
    ensures
        ({
            let value = recovered(chroma, color_loss_level);
            let next = recovered(chroma, (color_loss_level + 1) as u8);
            &&& -128 <= next <= 127
            &&& (next - 2 * value) % 256 == 0
        }),
{
    lemma_scaled(chroma, color_loss_level);
    lemma_scaled(chroma, (color_loss_level + 1) as u8);
    let scale = pow2((color_loss_level - 1) as nat);
    lemma_pow2_unfold(color_loss_level as nat);
    assert(chroma * (2 * scale) == 2 * (chroma * scale)) by (nonlinear_arith);
    lemma_doubled(
        recovered(chroma, color_loss_level),
        recovered(chroma, (color_loss_level + 1) as u8),
        chroma * scale,
        chroma * (2 * scale),
    );
}

proof fn lemma_doubled(a: int, b: int, m: int, n: int)
    requires
        (a - m) % 256 == 0,
        (b - n) % 256 == 0,
        n == 2 * m,
    ensures
        (b - 2 * a) % 256 == 0,
{
}

/// What a chroma byte is recovered to is its multiple, less a multiple of 256.
proof fn lemma_scaled(chroma: u8, color_loss_level: u8)
    requires
        1 <= color_loss_level <= 7,
    ensures
        -128 <= recovered(chroma, color_loss_level) <= 127,
        (recovered(chroma, color_loss_level) - chroma * pow2((color_loss_level - 1) as nat)) % 256
            == 0,
{
    lemma2_to64();
    let n = chroma * pow2((color_loss_level - 1) as nat);
    assert(n >= 0) by (nonlinear_arith)
        requires
            n == chroma * pow2((color_loss_level - 1) as nat),
    ;
}

/// The byte nearest to a color value.
pub open spec fn nearest(byte: u8, value: int) -> bool {
    &&& 0 <= value <= 255 ==> byte == value
    &&& value < 0 ==> byte == 0
    &&& value > 255 ==> byte == 255
}

/// Whether the four bytes at `at` are a pixel with the given luma, chroma and alpha: blue, green
/// and red, each the nearest byte, and alpha.
pub open spec fn is_pixel(pixels: Seq<u8>, at: int, y: u8, co: int, cg: int, alpha: u8) -> bool {
    &&& 0 <= at
    &&& at + 4 <= pixels.len()
    &&& nearest(pixels[at], y - co - cg)
    &&& nearest(pixels[at + 1], y + cg)
    &&& nearest(pixels[at + 2], y + co - cg)
    &&& pixels[at + 3] == alpha
}

/// The color transform: a color whose red and blue differ by twice the orange chroma, whose green
/// lies above the mean of the two by twice the green chroma, and whose weighted mean is the luma,
/// comes out as blue, green, red and alpha.
pub proof fn law_color_transform(r: u8, g: u8, b: u8, y: u8, co: int, cg: int, alpha: u8)
    requires
        r - b == 2 * co,
        2 * g - r - b == 4 * cg,
        r + 2 * g + b == 4 * y,
    ensures
        bgra(y, co, cg, alpha) == seq![b, g, r, alpha],
{
    assert(bgra(y, co, cg, alpha) =~= seq![b, g, r, alpha]);
}

/// The header of a stream: four plane sizes, the color loss level, the subsampling byte and two
/// more bytes.
pub open spec fn header(
    n0: nat,
    n1: nat,
    n2: nat,
    n3: nat,
    color_loss_level: u8,
    subsampling: u8,
    reserved: (u8, u8),
) -> Seq<u8> {
    little_endian(n0) + little_endian(n1) + little_endian(n2) + little_endian(n3) + seq![
        color_loss_level,
        subsampling,
        reserved.0,
        reserved.1,
    ]
}

/// The four planes of a stream as they are stored.
pub struct Stored {
    pub luma: Seq<u8>,
    pub orange: Seq<u8>,
    pub green: Seq<u8>,
    pub alpha: Seq<u8>,
}

/// The sizes of stored planes fit the header.
pub open spec fn storable(stored: Stored) -> bool {
    &&& stored.luma.len() < 0x1_0000_0000
    &&& stored.orange.len() < 0x1_0000_0000
    &&& stored.green.len() < 0x1_0000_0000
    &&& stored.alpha.len() < 0x1_0000_0000
}

/// The stream that holds the given planes; `excess` is what follows them.
pub open spec fn framed(
    stored: Stored,
    color_loss_level: u8,
    subsampling: u8,
    reserved: (u8, u8),
    excess: Seq<u8>,
) -> Seq<u8> {
    header(
        stored.luma.len(),
        stored.orange.len(),
        stored.green.len(),
        stored.alpha.len(),
        color_loss_level,
        subsampling,
        reserved,
    ) + (stored.luma + (stored.orange + (stored.green + (stored.alpha + excess))))
}

/// What a stored plane stands for: nothing stored is a plane full of `0xFF`, fewer bytes than the
/// plane has are run-length coded, and any other number of bytes begins with the plane itself.
pub open spec fn unpacked(stored: Seq<u8>, size: nat) -> Result<Seq<u8>, NscodecError> {
    if stored.len() >= size && stored.len() > 0 {
        Ok(Seq::new(size, |i: int| stored[i]))
    } else if stored.len() > 0 {
        rle_plane(stored, size)
    } else {
        Ok(Seq::new(size, |i: int| 255u8))
    }
}

/// The dimensions of a picture and of its planes. With subsampling the rows of the luma plane are
/// filled up to a multiple of eight bytes, the rows of the chroma planes are half of that, and the
/// chroma planes have half the rows, rounded up. The alpha plane always has a byte for each pixel.
pub struct Layout {
    pub w: nat,
    pub h: nat,
    pub luma_row: nat,
    pub chroma_row: nat,
    pub chroma_rows: nat,
}

/// Whether a layout is that of a picture of `width` by `height` pixels.
pub open spec fn laid_out(layout: Layout, width: u16, height: u16, subsampling: u8) -> bool {
    &&& layout.w == width > 0
    &&& layout.h == height > 0
    &&& if subsampling == 0 {
        &&& layout.luma_row == layout.w
        &&& layout.chroma_row == layout.w
        &&& layout.chroma_rows == layout.h
    } else {
        &&& layout.luma_row % 8 == 0
        &&& layout.w <= layout.luma_row < layout.w + 8
        &&& 2 * layout.chroma_row == layout.luma_row
        &&& layout.h <= 2 * layout.chroma_rows <= layout.h + 1
    }
}

/// The place of the chroma of a pixel in either chroma plane.
pub open spec fn chroma_place(layout: Layout, subsampling: u8, row: nat, col: nat) -> int {
    if subsampling == 0 {
        (row * layout.chroma_row + col) as int
    } else {
        ((row / 2) * layout.chroma_row + col / 2) as int
    }
}

/// The size of the luma plane.
pub open spec fn luma_size(layout: Layout) -> nat {
    layout.luma_row * layout.h
}

/// The size of either chroma plane.
pub open spec fn chroma_size(layout: Layout) -> nat {
    layout.chroma_row * layout.chroma_rows
}

/// The size of the alpha plane.
pub open spec fn alpha_size(layout: Layout) -> nat {
    layout.w * layout.h
}

proof fn lemma_header(
    n0: nat,
    n1: nat,
    n2: nat,
    n3: nat,
    color_loss_level: u8,
    subsampling: u8,
    reserved: (u8, u8),
    body: Seq<u8>,
)
    requires
        n0 < 0x1_0000_0000,
        n1 < 0x1_0000_0000,
        n2 < 0x1_0000_0000,
        n3 < 0x1_0000_0000,
    ensures
        ({
            let data = header(n0, n1, n2, n3, color_loss_level, subsampling, reserved) + body;
            &&& data.len() == 20 + body.len()
            &&& data[16] == color_loss_level
            &&& data[17] == subsampling
            &&& plane_count(data, 0) == n0
            &&& plane_count(data, 1) == n1
            &&& plane_count(data, 2) == n2
            &&& plane_count(data, 3) == n3
            &&& plane_offset(data, 1) == n0
            &&& plane_offset(data, 2) == n0 + n1
            &&& plane_offset(data, 3) == n0 + n1 + n2
            &&& plane_offset(data, 4) == n0 + n1 + n2 + n3
        }),
{
    let data = header(n0, n1, n2, n3, color_loss_level, subsampling, reserved) + body;
    lemma_little_endian(n0);
    lemma_little_endian(n1);
    lemma_little_endian(n2);
    lemma_little_endian(n3);
    assert forall|j: int| 0 <= j < 4 implies data[j] == little_endian(n0)[j] && data[4 + j]
        == little_endian(n1)[j] && data[8 + j] == little_endian(n2)[j] && data[12 + j]
        == #[trigger] little_endian(n3)[j] by {}
    assert(data[0] == little_endian(n0)[0] && data[1] == little_endian(n0)[1] && data[2]
        == little_endian(n0)[2] && data[3] == little_endian(n0)[3]);
    assert(data[4] == little_endian(n1)[0] && data[5] == little_endian(n1)[1] && data[6]
        == little_endian(n1)[2] && data[7] == little_endian(n1)[3]);
    assert(data[8] == little_endian(n2)[0] && data[9] == little_endian(n2)[1] && data[10]
        == little_endian(n2)[2] && data[11] == little_endian(n2)[3]);
    assert(data[12] == little_endian(n3)[0] && data[13] == little_endian(n3)[1] && data[14]
        == little_endian(n3)[2] && data[15] == little_endian(n3)[3]);
    reveal_with_fuel(plane_offset, 5);
}

proof fn lemma_framed(
    stored: Stored,
    color_loss_level: u8,
    subsampling: u8,
    reserved: (u8, u8),
    excess: Seq<u8>,
)
    requires
        storable(stored),
    ensures
        ({
            let data = framed(stored, color_loss_level, subsampling, reserved, excess);
            &&& data.len() >= 20 + plane_offset(data, 4)
            &&& data[16] == color_loss_level
            &&& data[17] == subsampling
            &&& plane_count(data, 0) == stored.luma.len()
            &&& plane_count(data, 1) == stored.orange.len()
            &&& plane_count(data, 2) == stored.green.len()
            &&& plane_count(data, 3) == stored.alpha.len()
            &&& plane_chunk(data, 0) == stored.luma
            &&& plane_chunk(data, 1) == stored.orange
            &&& plane_chunk(data, 2) == stored.green
            &&& plane_chunk(data, 3) == stored.alpha
        }),
{
    let n0 = stored.luma.len();
    let n1 = stored.orange.len();
    let n2 = stored.green.len();
    let n3 = stored.alpha.len();
    let head = header(n0, n1, n2, n3, color_loss_level, subsampling, reserved);
    let from3 = stored.alpha + excess;
    let from2 = stored.green + from3;
    let from1 = stored.orange + from2;
    let body = stored.luma + from1;
    let data = head + body;
    lemma_header(n0, n1, n2, n3, color_loss_level, subsampling, reserved, body);
    lemma_sections(head, stored.luma, stored.orange, stored.green, stored.alpha, excess);
}

/// Parts of a concatenation.
proof fn lemma_sections(
    head: Seq<u8>,
    a: Seq<u8>,
    b: Seq<u8>,
    c: Seq<u8>,
    d: Seq<u8>,
    rest: Seq<u8>,
)
    ensures
        ({
            let whole = head + (a + (b + (c + (d + rest))));
            let at_a = head.len() as int;
            let at_b = at_a + a.len();
            let at_c = at_b + b.len();
            let at_d = at_c + c.len();
            &&& whole.subrange(at_a, at_b) == a
            &&& whole.subrange(at_b, at_c) == b
            &&& whole.subrange(at_c, at_d) == c
            &&& whole.subrange(at_d, at_d + d.len()) == d
        }),
{
    let whole = head + (a + (b + (c + (d + rest))));
    let at_a = head.len() as int;
    let at_b = at_a + a.len();
    let at_c = at_b + b.len();
    let at_d = at_c + c.len();
    assert(whole.subrange(at_a, at_b) =~= a);
    assert(whole.subrange(at_b, at_c) =~= b);
    assert(whole.subrange(at_c, at_d) =~= c);
    assert(whole.subrange(at_d, at_d + d.len()) =~= d);
}

proof fn lemma_layout(layout: Layout, width: u16, height: u16, subsampling: u8)
    requires
        laid_out(layout, width, height, subsampling),
    ensures
        ({
            let w = width as int;
            let h = height as int;
            let halved = subsampling != 0;
            &&& plane_stride(w, halved, 0) == layout.luma_row
            &&& plane_stride(w, halved, 1) == layout.chroma_row
            &&& plane_stride(w, halved, 2) == layout.chroma_row
            &&& plane_size(w, h, halved, 0) == luma_size(layout)
            &&& plane_size(w, h, halved, 1) == chroma_size(layout)
            &&& plane_size(w, h, halved, 2) == chroma_size(layout)
            &&& plane_size(w, h, halved, 3) == alpha_size(layout)
        }),
{
}

proof fn lemma_unpacked(data: Seq<u8>, w: int, h: int, i: int)
    ensures
        plane_chunk(data, i).len() == plane_count(data, i) ==> plane(data, w, h, i) == unpacked(
            plane_chunk(data, i),
            plane_size(w, h, subsampled(data), i),
        ),
{
    let chunk = plane_chunk(data, i);
    let size = plane_size(w, h, subsampled(data), i);
    if chunk.len() == plane_count(data, i) {
        if chunk.len() == 0 {
            assert(repeated(0xFF, size) =~= Seq::new(size, |i: int| 255u8));
        } else if chunk.len() >= size {
            assert(chunk.take(size as int) =~= Seq::new(size, |i: int| chunk[i]));
        }
    }
}

/// A stream that holds four planes decodes to the picture that they make.
proof fn lemma_decoded(
    stored: Stored,
    color_loss_level: u8,
    subsampling: u8,
    reserved: (u8, u8),
    excess: Seq<u8>,
    width: u16,
    height: u16,
    layout: Layout,
    planes: Planes,
)
    requires
        storable(stored),
        1 <= color_loss_level <= 7,
        laid_out(layout, width, height, subsampling),
        unpacked(stored.luma, luma_size(layout)) == Ok::<Seq<u8>, NscodecError>(planes.luma),
        unpacked(stored.orange, chroma_size(layout)) == Ok::<Seq<u8>, NscodecError>(planes.orange),
        unpacked(stored.green, chroma_size(layout)) == Ok::<Seq<u8>, NscodecError>(planes.green),
        unpacked(stored.alpha, alpha_size(layout)) == Ok::<Seq<u8>, NscodecError>(planes.alpha),
    ensures
        nscodec_picture(
            framed(stored, color_loss_level, subsampling, reserved, excess),
            width,
            height,
        ) == Ok::<Seq<u8>, NscodecError>(
            picture(planes, width as int, height as int, subsampling != 0, color_loss_level),
        ),
{
    let data = framed(stored, color_loss_level, subsampling, reserved, excess);
    let w = width as int;
    let h = height as int;
    lemma_framed(stored, color_loss_level, subsampling, reserved, excess);
    lemma_layout(layout, width, height, subsampling);
    lemma_unpacked(data, w, h, 0);
    lemma_unpacked(data, w, h, 1);
    lemma_unpacked(data, w, h, 2);
    lemma_unpacked(data, w, h, 3);
}

/// The bytes of a pixel, one by one.
#[verifier::spinoff_prover]
proof fn lemma_pixel(
    planes: Planes,
    w: int,
    h: int,
    halved: bool,
    color_loss_level: u8,
    row: int,
    col: int,
)
    requires
        0 <= row < h,
        0 <= col < w,
    ensures
        ({
            let pixels = picture(planes, w, h, halved, color_loss_level);
            let pixel = pixel_at(planes, w, halved, color_loss_level, row, col);
            let at = 4 * (row * w + col);
            &&& pixels.len() == 4 * (w * h)
            &&& 0 <= at
            &&& at + 4 <= pixels.len()
            &&& pixels[at] == pixel[0]
            &&& pixels[at + 1] == pixel[1]
            &&& pixels[at + 2] == pixel[2]
            &&& pixels[at + 3] == pixel[3]
        }),
{
    law_pixel_order(planes, w, h, halved, color_loss_level, row, col);
    let pixels = picture(planes, w, h, halved, color_loss_level);
    let at = 4 * (row * w + col);
    let four = pixels.subrange(at, at + 4);
    assert(four[0] == pixels[at] && four[1] == pixels[at + 1] && four[2] == pixels[at + 2]
        && four[3] == pixels[at + 3]);
}

/// A pixel of a picture that four planes make.
#[verifier::spinoff_prover]
proof fn lemma_laid_out_pixel(
    color_loss_level: u8,
    subsampling: u8,
    width: u16,
    height: u16,
    layout: Layout,
    planes: Planes,
    row: nat,
    col: nat,
    co: int,
    cg: int,
)
    requires
        laid_out(layout, width, height, subsampling),
        row < layout.h,
        col < layout.w,
        recovered(
            planes.orange[chroma_place(layout, subsampling, row, col)],
            color_loss_level,
        ) == co,
        recovered(
            planes.green[chroma_place(layout, subsampling, row, col)],
            color_loss_level,
        ) == cg,
    ensures
        ({
            let pixels = picture(
                planes,
                width as int,
                height as int,
                subsampling != 0,
                color_loss_level,
            );
            &&& pixels.len() == 4 * (layout.w * layout.h)
            &&& is_pixel(
                pixels,
                4 * (row * layout.w + col) as int,
                planes.luma[(row * layout.luma_row + col) as int],
                co,
                cg,
                planes.alpha[(row * layout.w + col) as int],
            )
        }),
{
    let w = width as int;
    let h = height as int;
    let halved = subsampling != 0;
    let y = planes.luma[(row * layout.luma_row + col) as int];
    let alpha = planes.alpha[(row * layout.w + col) as int];
    lemma_places(layout, width, height, subsampling, row, col);
    lemma_pixel(planes, w, h, halved, color_loss_level, row as int, col as int);
    assert(pixel_at(planes, w, halved, color_loss_level, row as int, col as int) == bgra(
        y,
        co,
        cg,
        alpha,
    ));
    lemma_nearest(y, co, cg, alpha);
}

/// The bytes of a pixel are the nearest ones.
proof fn lemma_nearest(y: u8, co: int, cg: int, alpha: u8)
    ensures
        bgra(y, co, cg, alpha).len() == 4,
        nearest(bgra(y, co, cg, alpha)[0], y - co - cg),
        nearest(bgra(y, co, cg, alpha)[1], y + cg),
        nearest(bgra(y, co, cg, alpha)[2], y + co - cg),
        bgra(y, co, cg, alpha)[3] == alpha,
{
}

/// The places of the bytes of a pixel in the four planes.
proof fn lemma_places(
    layout: Layout,
    width: u16,
    height: u16,
    subsampling: u8,
    row: nat,
    col: nat,
)
    requires
        laid_out(layout, width, height, subsampling),
    ensures
        ({
            let w = width as int;
            let halved = subsampling != 0;
            let at = chroma_place(layout, subsampling, row, col);
            &&& plane_index(w, halved, 0, row as int, col as int) == row * layout.luma_row + col
            &&& plane_index(w, halved, 1, row as int, col as int) == at
            &&& plane_index(w, halved, 2, row as int, col as int) == at
            &&& plane_index(w, halved, 3, row as int, col as int) == row * layout.w + col
        }),
{
    lemma_layout(layout, width, height, subsampling);
}

/// Where a stream holds four planes, each pixel of the picture is made of the luma byte of its
/// row and column, of the two chroma bytes, those of its two by two block where chroma is
/// subsampled, and of the alpha byte. Chroma is brought back to scale as a signed byte. The pixel
/// is blue, green, red, each the nearest byte, and alpha.
pub proof fn law_decode(
    stored: Stored,
    color_loss_level: u8,
    subsampling: u8,
    reserved: (u8, u8),
    excess: Seq<u8>,
    width: u16,
    height: u16,
    layout: Layout,
    planes: Planes,
    row: nat,
    col: nat,
    co: int,
    cg: int,
)
    requires
        storable(stored),
        1 <= color_loss_level <= 7,
        laid_out(layout, width, height, subsampling),
        unpacked(stored.luma, luma_size(layout)) == Ok::<Seq<u8>, NscodecError>(planes.luma),
        unpacked(stored.orange, chroma_size(layout)) == Ok::<Seq<u8>, NscodecError>(planes.orange),
        unpacked(stored.green, chroma_size(layout)) == Ok::<Seq<u8>, NscodecError>(planes.green),
        unpacked(stored.alpha, alpha_size(layout)) == Ok::<Seq<u8>, NscodecError>(planes.alpha),
        row < layout.h,
        col < layout.w,
        ({
            let at = chroma_place(layout, subsampling, row, col);
            let scale = pow2((color_loss_level - 1) as nat);
            &&& -128 <= co <= 127
            &&& (co - planes.orange[at] * scale) % 256 == 0
            &&& -128 <= cg <= 127
            &&& (cg - planes.green[at] * scale) % 256 == 0
        }),
    ensures
        nscodec_picture(
            framed(stored, color_loss_level, subsampling, reserved, excess),
            width,
            height,
        ) matches Ok(pixels) && pixels.len() == 4 * (layout.w * layout.h) && is_pixel(
            pixels,
            4 * (row * layout.w + col) as int,
            planes.luma[(row * layout.luma_row + col) as int],
            co,
            cg,
            planes.alpha[(row * layout.w + col) as int],
        ),
{
    let at = chroma_place(layout, subsampling, row, col);
    lemma_chroma(planes.orange[at], color_loss_level, co);
    lemma_chroma(planes.green[at], color_loss_level, cg);
    lemma_decoded(
        stored,
        color_loss_level,
        subsampling,
        reserved,
        excess,
        width,
        height,
        layout,
        planes,
    );
    lemma_laid_out_pixel(
        color_loss_level,
        subsampling,
        width,
        height,
        layout,
        planes,
        row,
        col,
        co,
        cg,
    );
}

/// What a chroma byte is recovered to is the only signed byte with the residue of its multiple.
proof fn lemma_chroma(chroma: u8, color_loss_level: u8, value: int)
    requires
        1 <= color_loss_level <= 7,
        -128 <= value <= 127,
        (value - chroma * pow2((color_loss_level - 1) as nat)) % 256 == 0,
    ensures
        recovered(chroma, color_loss_level) == value,
{
    lemma_scaled(chroma, color_loss_level);
    lemma_same_residue(
        recovered(chroma, color_loss_level),
        value,
        chroma * pow2((color_loss_level - 1) as nat),
    );
}

/// A number in `-128..=127` is the only one with its residue modulo 256.
proof fn lemma_same_residue(a: int, b: int, n: int)
    requires
        -128 <= a <= 127,
        -128 <= b <= 127,
        (a - n) % 256 == 0,
        (b - n) % 256 == 0,
    ensures
        a == b,
{
}

/// Of the stored planes that stand for nothing, the first in the order luma, orange, green, alpha
/// gives the defect that is reported.
pub proof fn law_first_bad_plane(
    stored: Stored,
    color_loss_level: u8,
    subsampling: u8,
    reserved: (u8, u8),
    excess: Seq<u8>,
    width: u16,
    height: u16,
    layout: Layout,
)
    requires
        storable(stored),
        1 <= color_loss_level <= 7,
        laid_out(layout, width, height, subsampling),
    ensures
        ({
            let data = framed(stored, color_loss_level, subsampling, reserved, excess);
            let result = nscodec_picture(data, width, height);
            let luma = unpacked(stored.luma, luma_size(layout));
            let orange = unpacked(stored.orange, chroma_size(layout));
            let green = unpacked(stored.green, chroma_size(layout));
            let alpha = unpacked(stored.alpha, alpha_size(layout));
            &&& luma is Err ==> result == luma
            &&& luma is Ok && orange is Err ==> result == orange
            &&& luma is Ok && orange is Ok && green is Err ==> result == green
            &&& luma is Ok && orange is Ok && green is Ok && alpha is Err ==> result == alpha
            &&& luma is Ok && orange is Ok && green is Ok && alpha is Ok ==> result is Ok
        }),
{
    let data = framed(stored, color_loss_level, subsampling, reserved, excess);
    let w = width as int;
    let h = height as int;
    lemma_framed(stored, color_loss_level, subsampling, reserved, excess);
    lemma_layout(layout, width, height, subsampling);
    lemma_unpacked(data, w, h, 0);
    lemma_unpacked(data, w, h, 1);
    lemma_unpacked(data, w, h, 2);
    lemma_unpacked(data, w, h, 3);
}

/// What a header can be refused for: fewer than twenty bytes, then a color loss level outside
/// `1..=7`, then planes that are declared longer than what follows the header. Behind a good
/// header an empty picture has no pixels, whatever its planes hold.
pub proof fn law_header_defects(
    data: Seq<u8>,
    n0: nat,
    n1: nat,
    n2: nat,
    n3: nat,
    color_loss_level: u8,
    subsampling: u8,
    reserved: (u8, u8),
    body: Seq<u8>,
    width: u16,
    height: u16,
)
    requires
        n0 < 0x1_0000_0000,
        n1 < 0x1_0000_0000,
        n2 < 0x1_0000_0000,
        n3 < 0x1_0000_0000,
    ensures
        data.len() < 20 ==> nscodec_picture(data, width, height) == Err::<Seq<u8>, NscodecError>(
            NscodecError::HeaderTooShort,
        ),
        ({
            let whole = header(n0, n1, n2, n3, color_loss_level, subsampling, reserved) + body;
            let result = nscodec_picture(whole, width, height);
            let leveled = 0 < color_loss_level < 8;
            let present = n0 + n1 + n2 + n3 <= body.len();
            &&& !leveled ==> result == Err::<Seq<u8>, NscodecError>(
                NscodecError::ColorLossLevelOutOfRange,
            )
            &&& leveled && !present ==> result == Err::<Seq<u8>, NscodecError>(
                NscodecError::PlaneDataTooShort,
            )
            &&& leveled && present && (width == 0 || height == 0) ==> result == Ok::<
                Seq<u8>,
                NscodecError,
            >(Seq::empty())
        }),
{
    lemma_header(n0, n1, n2, n3, color_loss_level, subsampling, reserved, body);
}

} // verus!
