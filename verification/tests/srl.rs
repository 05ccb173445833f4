use egfx_codecs::bits::{BitReader, BitWriter};
use egfx_codecs::srl::{encode_srl, SrlDecoder, SrlEncoder};

/// Decode `n` values from a fresh single-stream decoder.
fn decode_seq(data: &[u8], n: usize, num_bits: u8) -> Vec<i16> {
    let mut d = SrlDecoder::new(data);
    core::iter::repeat_with(|| d.read(num_bits)).take(n).collect()
}

#[test]
fn round_trip_single_positive() {
    let v = vec![1];
    assert_eq!(decode_seq(&encode_srl(&v, 1), 1, 1), v);
}

#[test]
fn round_trip_single_negative() {
    let v = vec![-1];
    assert_eq!(decode_seq(&encode_srl(&v, 1), 1, 1), v);
}

#[test]
fn round_trip_mixed_zeros() {
    // Leading/interior zeros and multi-bit magnitudes.
    let v = vec![0, 0, 1, -1, 0, 3];
    assert_eq!(decode_seq(&encode_srl(&v, 4), v.len(), 4), v);
}

#[test]
fn round_trip_nonzero_only() {
    let v = vec![1, -1, 2, -3, 1];
    assert_eq!(decode_seq(&encode_srl(&v, 4), v.len(), 4), v);
}

#[test]
fn round_trip_long_zero_runs() {
    // Exercises the adaptive kp chunking across long runs.
    let mut v = vec![0i16; 50];
    v[10] = 5;
    v[40] = -7;
    assert_eq!(decode_seq(&encode_srl(&v, 4), v.len(), 4), v);
}

#[test]
fn round_trip_capped_magnitude() {
    // num_bits=3 => max magnitude = 7; values at and near the cap.
    let v = vec![7, 6, 1, -7, 4];
    assert_eq!(decode_seq(&encode_srl(&v, 3), v.len(), 3), v);
}

#[test]
fn all_zeros_via_past_end() {
    // Empty/short stream: every position decodes to zero.
    assert_eq!(decode_seq(&[], 5, 3), vec![0, 0, 0, 0, 0]);
}

#[test]
fn bit_reader_basic() {
    let data = [0b1011_0000];
    let mut reader = BitReader::new(&data);
    assert!(reader.read_bit());
    assert!(!reader.read_bit());
    assert!(reader.read_bit());
    assert!(reader.read_bit());
}

#[test]
fn bit_writer_basic() {
    let mut writer = BitWriter::new();
    for b in [true, false, true, true, false, false, false, false] {
        writer.write_bit(b);
    }
    assert_eq!(writer.finish(), vec![0b1011_0000]);
}

#[test]
fn bit_reader_past_end_reads_zeros() {
    let data = [0xFF];
    let mut reader = BitReader::new(&data);
    assert_eq!(reader.read_bits(8), 0xFF);
    assert!(!reader.read_bit());
    assert_eq!(reader.read_bits(5), 0);
}

#[test]
fn bit_reader_numbers() {
    let data = [0b1010_0101, 0b1100_0000];
    let mut reader = BitReader::new(&data);
    assert_eq!(reader.read_bits(0), 0);
    assert_eq!(reader.read_bits(3), 0b101);
    assert_eq!(reader.read_bits(7), 0b001_0111);
    assert_eq!(reader.read_bits(10), 0);
}

#[test]
fn bit_reader_keeps_low_32_bits() {
    let data = [0xAB, 0x12, 0x34, 0x56, 0x78];
    let mut reader = BitReader::new(&data);
    assert_eq!(reader.read_bits(40), 0x1234_5678);
}

#[test]
fn bit_writer_numbers_and_padding() {
    let mut writer = BitWriter::new();
    writer.write_bits(0b101, 3);
    writer.write_bits(0x1FF, 8);
    assert_eq!(writer.finish(), vec![0b1011_1111, 0b1110_0000]);
    let mut writer = BitWriter::new();
    writer.write_bits(0xDEAD_BEEF, 32);
    assert_eq!(writer.finish(), vec![0xDE, 0xAD, 0xBE, 0xEF]);
    assert_eq!(BitWriter::new().finish(), Vec::<u8>::new());
}

#[test]
fn packed_bits_read_back() {
    let bits = [true, true, false, true, false, false, true, false, true, true];
    let mut writer = BitWriter::new();
    for b in bits {
        writer.write_bit(b);
    }
    let bytes = writer.finish();
    assert_eq!(bytes.len(), 2);
    let mut reader = BitReader::new(&bytes);
    for b in bits {
        assert_eq!(reader.read_bit(), b);
    }
    for _ in 0..6 {
        assert!(!reader.read_bit());
    }
}

#[test]
fn exact_streams() {
    // A value at once: '1', run length 0 in one bit, sign.
    assert_eq!(encode_srl(&[1], 1), vec![0b1000_0000]);
    assert_eq!(encode_srl(&[-1], 1), vec![0b1010_0000]);
    // Three zeros: '0' stands for two, then '1' and a run of one in one bit; 2 is "0" "01".
    assert_eq!(encode_srl(&[0, 0, 0, 2], 4), vec![0b0110_0100]);
    // Magnitude 3 of 2 bits is the largest and needs no stop bit.
    assert_eq!(encode_srl(&[-3], 2), vec![0b1010_0000]);
    assert_eq!(encode_srl(&[], 4), Vec::<u8>::new());
    assert_eq!(encode_srl(&[0, 0, 0], 200), Vec::<u8>::new());
}

#[test]
fn magnitudes_saturate() {
    let v = vec![100, -100, 8, 7];
    assert_eq!(decode_seq(&encode_srl(&v, 3), v.len(), 3), vec![7, -7, 7, 7]);
    let v = vec![5, -5];
    assert_eq!(decode_seq(&encode_srl(&v, 1), v.len(), 1), vec![1, -1]);
    assert_eq!(decode_seq(&encode_srl(&v, 0), v.len(), 0), vec![1, -1]);
    let v = vec![i16::MAX, i16::MIN, -32767];
    assert_eq!(decode_seq(&encode_srl(&v, 16), v.len(), 16), vec![32767, -32767, -32767]);
}

#[test]
fn bands_share_one_stream() {
    let items: [(i16, u8); 9] =
        [(0, 1), (1, 1), (-1, 1), (0, 5), (0, 5), (17, 5), (0, 3), (-6, 3), (0, 2)];
    let mut enc = SrlEncoder::default();
    for (v, n) in items {
        enc.write(v, n);
    }
    let bytes = enc.finish();
    let mut dec = SrlDecoder::new(&bytes);
    for (v, n) in items {
        assert_eq!(dec.read(n), v);
    }
    for _ in 0..100 {
        assert_eq!(dec.read(7), 0);
    }
}

#[test]
fn trailing_zeros_leave_no_trace() {
    let short = [0, 4, 0, -2];
    let mut long = short.to_vec();
    long.extend([0; 500]);
    assert_eq!(encode_srl(&long, 4), encode_srl(&short, 4));
    assert_eq!(decode_seq(&encode_srl(&short, 4), long.len(), 4), long);
}

#[test]
fn very_long_runs() {
    let mut v = vec![0i16; 9000];
    v[8000] = -1;
    v[8999] = 3;
    assert_eq!(decode_seq(&encode_srl(&v, 2), v.len(), 2), v);
}

#[test]
fn blank_stream_decodes_to_zeros() {
    assert_eq!(decode_seq(&[0, 0, 0], 3000, 6), vec![0; 3000]);
}

#[test]
fn unary_runs_into_the_cap_past_the_end() {
    // '1', run 0, sign 1, then nothing but zero bits: the magnitude is the largest one.
    assert_eq!(decode_seq(&[0b1010_0000], 2, 5), vec![-31, 0]);
    assert_eq!(decode_seq(&[0b1000_0000], 1, 15), vec![32767]);
    assert_eq!(decode_seq(&[0b1000_0000], 1, 20), vec![32767]);
}
