use egfx_codecs::error::NscodecError;
use egfx_codecs::nscodec::decode_nscodec;
use egfx_codecs::rle::{read_le_u32, rle_decode};

#[test]
fn rle_literal_and_run() {
    // orig=10: literal 'A', run 'B'x2+len(3)=5, then 4 raw tail bytes.
    let input = [0x41, 0x42, 0x42, 3, 1, 2, 3, 4];
    let out = rle_decode(&input, 10).unwrap();
    assert_eq!(out, vec![0x41, 0x42, 0x42, 0x42, 0x42, 0x42, 1, 2, 3, 4]);
}

#[test]
fn rle_tail_only() {
    // orig=4: loop never runs, 4 raw bytes.
    let out = rle_decode(&[9, 8, 7, 6], 4).unwrap();
    assert_eq!(out, vec![9, 8, 7, 6]);
}

#[test]
fn rle_left_five_forces_literal() {
    // orig=5: first byte literal even if next equals.
    let out = rle_decode(&[5, 5, 1, 2, 3], 5).unwrap();
    assert_eq!(out, vec![5, 5, 1, 2, 3]);
}

/// Build a raw (uncompressed planes, no subsampling) NSCodec stream.
fn raw_stream(w: usize, h: usize, y: u8, co: u8, cg: u8, a: u8, cll: u8) -> Vec<u8> {
    let n = w * h;
    let mut s = Vec::new();
    for _ in 0..4 {
        s.extend_from_slice(&(n as u32).to_le_bytes());
    }
    s.push(cll);
    s.push(0); // no chroma subsampling
    s.extend_from_slice(&[0, 0]);
    for v in [y, co, cg, a] {
        s.extend(std::iter::repeat(v).take(n));
    }
    s
}

#[test]
fn ycocg_conversion_matches_freerdp() {
    // y=100, co=10, cg=246(-10 as i8), CLL=1 (shift 0):
    // r = 100+10-(-10)=120, g = 100-10=90, b = 100-10+10=100, BGRA order.
    let s = raw_stream(4, 2, 100, 10, 246, 0x80, 1);
    let px = decode_nscodec(&s, 4, 2).unwrap();
    assert_eq!(px.len(), 4 * 2 * 4);
    for p in px.chunks_exact(4) {
        assert_eq!(p, &[100, 90, 120, 0x80]);
    }
}

#[test]
fn color_loss_shift_applies() {
    // co=5, CLL=3 -> shift 2 -> co=20; cg=0. y=50: r=70, g=50, b=30.
    let s = raw_stream(2, 2, 50, 5, 0, 0xFF, 3);
    let px = decode_nscodec(&s, 2, 2).unwrap();
    for p in px.chunks_exact(4) {
        assert_eq!(p, &[30, 50, 70, 0xFF]);
    }
}

#[test]
fn absent_planes_decode_as_ff() {
    // All plane counts 0 -> planes all 0xFF: y=255, co=cg=-1 (i8 of 0xFF), shift 0:
    // r=255-1+1=255, g=254, b=255+1+1->255.
    let mut s = Vec::new();
    for _ in 0..4 {
        s.extend_from_slice(&0u32.to_le_bytes());
    }
    s.extend_from_slice(&[1, 0, 0, 0]);
    let px = decode_nscodec(&s, 2, 1).unwrap();
    for p in px.chunks_exact(4) {
        assert_eq!(p, &[255, 254, 255, 0xFF]);
    }
}

#[test]
fn chroma_subsampling_strides() {
    // 2x2, subsampled: luma stride rw=8 (rounded), chroma 4x1 plane shared
    // by all pixels. Luma varies per pixel; chroma constant.
    let w = 2usize;
    let h = 2usize;
    let rw = 8usize;
    let rh = 2usize;
    let luma_n = rw * h;
    let chroma_n = (rw / 2) * (rh / 2);
    let alpha_n = w * h;
    let mut s = Vec::new();
    for n in [luma_n, chroma_n, chroma_n, alpha_n] {
        s.extend_from_slice(&(n as u32).to_le_bytes());
    }
    s.extend_from_slice(&[1, 1, 0, 0]); // CLL=1, subsampling on
    let mut luma = vec![0u8; luma_n];
    luma[0] = 10; // (0,0)
    luma[1] = 20; // (1,0)
    luma[rw] = 30; // (0,1)
    luma[rw + 1] = 40; // (1,1)
    s.extend_from_slice(&luma);
    s.extend(std::iter::repeat(0u8).take(chroma_n)); // co=0
    s.extend(std::iter::repeat(0u8).take(chroma_n)); // cg=0
    s.extend(std::iter::repeat(0xFFu8).take(alpha_n));
    let px = decode_nscodec(&s, 2, 2).unwrap();
    // co=cg=0 -> r=g=b=y
    let at = |x: usize, y: usize| {
        let o = (y * w + x) * 4;
        (px[o], px[o + 1], px[o + 2])
    };
    assert_eq!(at(0, 0), (10, 10, 10));
    assert_eq!(at(1, 0), (20, 20, 20));
    assert_eq!(at(0, 1), (30, 30, 30));
    assert_eq!(at(1, 1), (40, 40, 40));
}

#[test]
fn rle_long_run() {
    // 0xFF marker and a little-endian run length of 300.
    let mut input = vec![9, 9, 0xFF, 0x2C, 0x01, 0, 0];
    input.extend([1, 2, 3, 4]);
    let mut expected = vec![9; 300];
    expected.extend([1, 2, 3, 4]);
    assert_eq!(rle_decode(&input, 304).unwrap(), expected);
}

#[test]
fn rle_run_of_no_length() {
    // A long run of length 0 stands for nothing.
    let input = [9, 9, 0xFF, 0, 0, 0, 0, 5, 6, 1, 2, 3, 4];
    assert_eq!(rle_decode(&input, 6).unwrap(), vec![5, 6, 1, 2, 3, 4]);
}

#[test]
fn rle_run_into_the_tail() {
    // The final four bytes are raw: a run that reaches into them is refused.
    for (input, size) in [
        (&[7, 7, 4][..], 6),
        (&[7, 7, 3, 8], 6),
        (&[7, 7, 8], 10),
        (&[7, 7, 1, 1, 2, 3, 4], 6),
        (&[7, 7, 0xFF, 3, 0, 0, 0, 1, 2, 3, 4], 6),
    ] {
        assert_eq!(rle_decode(input, size).unwrap_err(), NscodecError::RleRunExceedsPlane);
    }
    assert_eq!(rle_decode(&[7, 7, 0, 1, 2, 3, 4], 6).unwrap(), vec![7, 7, 1, 2, 3, 4]);
}

#[test]
fn rle_tail_is_raw() {
    // The plane ends in the four bytes behind its last coded piece.
    let input = [1, 9, 9, 0, 2, 5, 6, 7, 8, 77];
    let plane = rle_decode(&input, 8).unwrap();
    assert_eq!(plane, vec![1, 9, 9, 2, 5, 6, 7, 8]);
    assert_eq!(plane[4..], input[5..9]);
}

#[test]
fn rle_small_planes() {
    assert_eq!(rle_decode(&[], 0).unwrap(), Vec::<u8>::new());
    assert_eq!(rle_decode(&[3, 3, 3], 2).unwrap(), vec![3, 3]);
    assert_eq!(rle_decode(&[3, 3, 3], 4).unwrap_err(), NscodecError::RleRawTailTruncated);
}

#[test]
fn rle_excess_input_is_ignored() {
    let out = rle_decode(&[0x41, 0x42, 0x42, 3, 1, 2, 3, 4, 77, 78], 10).unwrap();
    assert_eq!(out, vec![0x41, 0x42, 0x42, 0x42, 0x42, 0x42, 1, 2, 3, 4]);
}

#[test]
fn rle_errors() {
    assert_eq!(rle_decode(&[], 5).unwrap_err(), NscodecError::RleInputExhausted);
    assert_eq!(rle_decode(&[1], 6).unwrap_err(), NscodecError::RleInputExhausted);
    assert_eq!(rle_decode(&[1, 1], 6).unwrap_err(), NscodecError::RleRunLengthMissing);
    assert_eq!(
        rle_decode(&[1, 1, 0xFF, 0, 0, 0], 6).unwrap_err(),
        NscodecError::RleRunLengthTruncated
    );
    assert_eq!(rle_decode(&[1, 1, 5], 6).unwrap_err(), NscodecError::RleRunExceedsPlane);
    assert_eq!(
        rle_decode(&[1, 1, 0xFF, 0xFF, 0xFF, 0xFF, 0xFF], 6).unwrap_err(),
        NscodecError::RleRunExceedsPlane
    );
    assert_eq!(rle_decode(&[1, 2, 3, 4, 5], 6).unwrap_err(), NscodecError::RleRawTailTruncated);
}

#[test]
fn little_endian() {
    assert_eq!(read_le_u32(0x78, 0x56, 0x34, 0x12), 0x1234_5678);
    assert_eq!(read_le_u32(0xFF, 0xFF, 0xFF, 0xFF), u32::MAX);
}

#[test]
fn stream_errors_come_in_order() {
    assert_eq!(decode_nscodec(&[0; 19], 4, 4).unwrap_err(), NscodecError::HeaderTooShort);
    let mut s = raw_stream(2, 2, 1, 2, 3, 4, 0);
    assert_eq!(decode_nscodec(&s, 2, 2).unwrap_err(), NscodecError::ColorLossLevelOutOfRange);
    s[16] = 8;
    s.truncate(25);
    assert_eq!(decode_nscodec(&s, 2, 2).unwrap_err(), NscodecError::ColorLossLevelOutOfRange);
    s[16] = 7;
    assert_eq!(decode_nscodec(&s, 2, 2).unwrap_err(), NscodecError::PlaneDataTooShort);
    assert_eq!(decode_nscodec(&s, 0, 2).unwrap_err(), NscodecError::PlaneDataTooShort);
    let mut s = vec![0xFF; 16];
    s.extend([1, 0, 0, 0]);
    assert_eq!(decode_nscodec(&s, 2, 2).unwrap_err(), NscodecError::PlaneDataTooShort);
}

#[test]
fn errors_of_a_plane_reach_the_caller() {
    // A 4x2 picture whose alpha plane is one byte short of its size and starts a run.
    let mut s = raw_stream(4, 2, 1, 2, 3, 4, 1);
    s[12..16].copy_from_slice(&3u32.to_le_bytes());
    s.truncate(20 + 8 * 3);
    s.extend([9, 9, 7]);
    assert_eq!(decode_nscodec(&s, 4, 2).unwrap_err(), NscodecError::RleRunExceedsPlane);
    // An earlier plane that is broken too is reported first.
    let mut t = Vec::new();
    for n in [2u32, 0, 0, 3] {
        t.extend_from_slice(&n.to_le_bytes());
    }
    t.extend([1, 0, 0, 0, 5, 5, 9, 9, 7]);
    assert_eq!(decode_nscodec(&t, 4, 2).unwrap_err(), NscodecError::RleRunLengthMissing);
}

#[test]
fn error_sentences() {
    assert_eq!(NscodecError::HeaderTooShort.reason(), "stream shorter than 20-byte header");
    assert_eq!(NscodecError::ColorLossLevelOutOfRange.reason(), "ColorLossLevel out of [1,7]");
    assert_eq!(NscodecError::PlaneDataTooShort.reason(), "plane data shorter than declared counts");
    assert_eq!(NscodecError::RleInputExhausted.reason(), "RLE input exhausted");
    assert_eq!(NscodecError::RleRunLengthMissing.reason(), "RLE run length missing");
    assert_eq!(NscodecError::RleRunLengthTruncated.reason(), "RLE u32 run length truncated");
    assert_eq!(NscodecError::RleRunExceedsPlane.reason(), "RLE run exceeds plane size");
    assert_eq!(NscodecError::RleRawTailTruncated.reason(), "RLE raw tail truncated");
}

#[test]
fn empty_pictures() {
    let s = raw_stream(2, 2, 1, 2, 3, 4, 1);
    assert_eq!(decode_nscodec(&s, 0, 9).unwrap(), Vec::<u8>::new());
    assert_eq!(decode_nscodec(&s, 9, 0).unwrap(), Vec::<u8>::new());
}

#[test]
fn coded_planes_decode_like_raw_ones() {
    // 4x2: a run of four and four raw bytes in each plane.
    let mut s = Vec::new();
    for _ in 0..4 {
        s.extend_from_slice(&7u32.to_le_bytes());
    }
    s.extend([1, 0, 0, 0]);
    for v in [100u8, 10, 246, 0x80] {
        s.extend([v, v, 2, v, v, v, v]);
    }
    assert_eq!(
        decode_nscodec(&s, 4, 2).unwrap(),
        decode_nscodec(&raw_stream(4, 2, 100, 10, 246, 0x80, 1), 4, 2).unwrap()
    );
}

#[test]
fn chroma_wraps_and_colors_clamp() {
    // co=3 at level 7: 3 << 6 = 192 -> -64; cg=1: 64. y=10: b=10+64-64, g=74, r=10-64-64 -> 0.
    let px = decode_nscodec(&raw_stream(1, 1, 10, 3, 1, 9, 7), 1, 1).unwrap();
    assert_eq!(px, vec![10, 74, 0, 9]);
    // co=4 at level 7: 4 << 6 = 256 -> 0.
    let px = decode_nscodec(&raw_stream(1, 1, 10, 4, 0, 9, 7), 1, 1).unwrap();
    assert_eq!(px, vec![10, 10, 10, 9]);
}

#[test]
fn gray_at_every_level() {
    for level in 1..=7 {
        let px = decode_nscodec(&raw_stream(3, 1, 77, 0, 0, 5, level), 3, 1).unwrap();
        assert_eq!(px, vec![77, 77, 77, 5, 77, 77, 77, 5, 77, 77, 77, 5]);
    }
}

#[test]
fn blocks_share_chroma() {
    // 3x3, subsampled: luma 8x3, chroma 4x2, alpha absent.
    let mut s = Vec::new();
    for n in [24u32, 8, 8, 0] {
        s.extend_from_slice(&n.to_le_bytes());
    }
    s.extend([1, 1, 0, 0]);
    s.extend([100; 24]);
    s.extend([1, 2, 0, 0, 3, 4, 0, 0]);
    s.extend([0; 8]);
    let px = decode_nscodec(&s, 3, 3).unwrap();
    let reds: Vec<u8> = px.chunks_exact(4).map(|p| p[2]).collect();
    assert_eq!(reds, vec![101, 101, 102, 101, 101, 102, 103, 103, 104]);
    assert!(px.chunks_exact(4).all(|p| p[3] == 0xFF));
}

#[test]
fn excess_data_is_ignored() {
    let mut s = raw_stream(2, 2, 50, 5, 0, 0xFF, 3);
    let px = decode_nscodec(&s, 2, 2).unwrap();
    s.extend([1, 2, 3]);
    assert_eq!(decode_nscodec(&s, 2, 2).unwrap(), px);
}
