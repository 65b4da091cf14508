use compressor::bitreader::BitReader;
use compressor::bitwriter::BitWriter;

#[test]
fn write_10_bits() {
    let mut writer = BitWriter::new(None);

    writer.write_bits(10, 2_u64.pow(10) - 1);
    writer.flush();
    let bytes = writer.into_bytes();
    assert_eq!(bytes, vec![255, 3])
}

#[test]
fn write_4_bit_integers() {
    let mut writer = BitWriter::new(None);

    writer.write_bits(4, 2_u64.pow(4) - 1);
    writer.write_bits(4, 0);
    writer.write_bits(4, 2_u64.pow(4) - 1);
    writer.write_bits(4, 2_u64.pow(4) - 1);
    writer.flush();
    let bytes = writer.into_bytes();
    assert_eq!(bytes, vec![15, 255])
}

#[test]
fn write_20_bits_with_10_bit_chunks_and_continuation_bit() {
    let mut writer = BitWriter::new(None);

    writer.write_bits_with_continuation_bit(10, 2_u64.pow(20) - 1);
    writer.flush();
    let bytes = writer.into_bytes();
    assert_eq!(bytes, vec![255, 247, 63]);
}

#[test]
fn write_keeps_only_the_low_bits() {
    let mut writer = BitWriter::new(None);
    writer.write_bits(4, 0xabc);
    writer.flush();
    assert_eq!(writer.into_bytes(), vec![0x0c]);
}

#[test]
fn a_full_word_is_emitted_at_once() {
    let mut writer = BitWriter::new(None);
    writer.write_bits(32, 0x0403_0201);
    writer.write_bits(32, 0x0807_0605);
    assert_eq!(writer.bytes(), &[1, 2, 3, 4, 5, 6, 7, 8]);
    assert_eq!(writer.bits_written(), 64);
    writer.flush();
    assert_eq!(writer.into_bytes(), vec![1, 2, 3, 4, 5, 6, 7, 8]);
}

#[test]
fn write_flags() {
    let mut writer = BitWriter::new(None);
    writer.write(&true);
    writer.write(&false);
    writer.write(&true);
    assert_eq!(writer.bits_written(), 3);
    writer.flush();
    assert_eq!(writer.into_bytes(), vec![0b0000_0101]);
}

#[test]
fn zero_with_continuation_bit_is_one_chunk() {
    let mut writer = BitWriter::new(None);
    writer.write_bits_with_continuation_bit(4, 0);
    assert_eq!(writer.bits_written(), 5);
    writer.flush();
    assert_eq!(writer.into_bytes(), vec![0]);
}

#[test]
fn what_is_written_reads_back() {
    let values: [(u32, u64); 6] = [(3, 5), (17, 99_999), (1, 1), (63, u64::MAX >> 1), (9, 300), (60, 12345)];
    let mut writer = BitWriter::new(None);
    for (n, v) in values {
        writer.write_bits(n, v);
    }
    writer.write_bits_with_continuation_bit(7, 1_000_000);
    writer.flush();
    let mut reader = BitReader::new(writer.into_bytes(), None);
    for (n, v) in values {
        assert_eq!(reader.read_bits(n).unwrap(), v);
    }
    assert_eq!(reader.read_bits_with_continuation_bit(7).unwrap(), 1_000_000);
}

#[test]
fn writer_chunk_size_defaults_to_ten() {
    let mut writer = BitWriter::new(None);
    assert_eq!(writer.default_chunk_size(), 10);
    writer.set_default_chunk_size(3);
    assert_eq!(writer.default_chunk_size(), 3);
}

#[test]
fn flush_writes_the_buffered_bits_after_an_earlier_flush() {
    let mut writer = BitWriter::new(None);
    writer.write_bits(4, 15);
    writer.flush();
    writer.write_bits(60, (1u64 << 60) - 1);
    writer.flush();
    assert_eq!(writer.into_bytes(), vec![15u8, 255, 255, 255, 255, 255, 255, 255, 15]);
}

#[test]
fn flush_with_nothing_buffered_writes_nothing() {
    let mut writer = BitWriter::new(None);
    writer.write_bits(4, 15);
    writer.flush();
    writer.flush();
    assert_eq!(writer.into_bytes(), vec![15u8]);
    let mut fresh = BitWriter::new(None);
    fresh.flush();
    assert_eq!(fresh.into_bytes(), Vec::<u8>::new());
}

#[test]
fn bits_leave_the_buffer_in_whole_words() {
    let mut writer = BitWriter::new(None);
    writer.write_bits(4, 15);
    writer.flush();
    writer.write_bits(63, 0);
    assert_eq!(writer.bytes(), &[15]);
    writer.write_bits(1, 1);
    assert_eq!(writer.bytes(), &[15, 0, 0, 0, 0, 0, 0, 0, 0x80]);
}

#[test]
fn writing_a_masked_value_writes_the_same_bits() {
    let mut w1 = BitWriter::new(None);
    let mut w2 = BitWriter::new(None);
    w1.write_bits(5, 0xff);
    w2.write_bits(5, 0xff & ((1u64 << 5) - 1));
    w1.flush();
    w2.flush();
    assert_eq!(w1.into_bytes(), w2.into_bytes());
}

#[test]
fn two_writes_equal_one_joined_write() {
    let (x, y, a, b) = (0b101u64, 0b1101u64, 3u32, 4u32);
    let mut w1 = BitWriter::new(None);
    let mut w2 = BitWriter::new(None);
    w1.write_bits(60, 7);
    w2.write_bits(60, 7);
    w1.write_bits(a, x);
    w1.write_bits(b, y);
    w2.write_bits(a + b, (x & ((1u64 << a) - 1)) | ((y & ((1u64 << b) - 1)) << a));
    assert_eq!(w1.bytes(), w2.bytes());
    assert_eq!(w1.bits_written(), w2.bits_written());
    w1.flush();
    w2.flush();
    assert_eq!(w1.into_bytes(), w2.into_bytes());
}

#[test]
fn a_value_in_chunks_takes_a_chunk_per_width_of_bits() {
    // (k + 1) * max(1, ceil(bitlen(v) / k))
    let cases: [(u32, u64, u64); 5] = [(10, 0, 11), (10, 1023, 11), (10, 1024, 22), (10, (1 << 20) - 1, 22), (4, u64::MAX, 80)];
    for (k, v, n) in cases {
        let mut writer = BitWriter::new(None);
        writer.write_bits_with_continuation_bit(k, v);
        assert_eq!(writer.bits_written(), n);
    }
}

#[test]
fn before_a_flush_whole_words_leave_the_buffer() {
    let mut writer = BitWriter::new(None);
    for i in 0..40u64 {
        writer.write_bits(13, i);
        let written = writer.bits_written();
        assert_eq!(written, 13 * (i + 1));
        assert_eq!(writer.bytes().len() as u64, 8 * (written / 64));
    }
}
