use compressor::bitreader::{BitReader, ReadError};

#[test]
fn read_10_bits() {
    let bytes: Vec<u8> = vec![255, 3]; // 1023
    let mut reader = BitReader::new(bytes, None);
    let value = reader.read_bits(10).unwrap();
    assert_eq!(value, 1023)
}

#[test]
fn read_20_bits_with_10_bit_chunks_and_continuation_bit() {
    let bytes = vec![255, 247, 63]; // 1048575
    let mut reader = BitReader::new(bytes, None);
    let value = reader.read_bits_with_continuation_bit(10).unwrap();
    assert_eq!(value, 1048575)
}

#[test]
fn read_4_bit_integers() {
    let bytes = vec![15, 255]; // 15, 0, 15, 15
    let mut reader = BitReader::new(bytes, None);
    let integers: Vec<u64> = (0..4).map(|_| reader.read_bits(4).unwrap()).collect();

    assert_eq!(integers, [15, 0, 15, 15])
}

#[test]
fn read_across_a_word_boundary() {
    let bytes: Vec<u8> = vec![0, 0, 0, 0, 0, 0, 0, 0x80, 0x01];
    let mut reader = BitReader::new(bytes, None);
    assert_eq!(reader.read_bits(60).unwrap(), 0);
    assert_eq!(reader.read_bits(8).unwrap(), 0b0001_1000);
    assert_eq!(reader.bits_read(), 68);
}

#[test]
fn read_past_the_end_fails() {
    let mut reader = BitReader::new(vec![1], None);
    // the last word is padded with zero bytes up to 64 bits
    assert_eq!(reader.read_bits(63).unwrap(), 1);
    assert_eq!(reader.read_bits(1).unwrap(), 0);
    assert_eq!(reader.read_bits(1), Err(ReadError::EndOfInput));
    assert_eq!(reader.bits_read(), 64);
}

#[test]
fn empty_input_reads_one_word_of_zeros() {
    let mut reader = BitReader::new(Vec::new(), None);
    assert_eq!(reader.read_bits(6).unwrap(), 0);
    assert_eq!(reader.read_bits(58).unwrap(), 0);
    assert_eq!(reader.read_bits(1), Err(ReadError::EndOfInput));
}

#[test]
fn read_flags() {
    let mut reader = BitReader::new(vec![0b0000_0101], None);
    assert_eq!(reader.read::<bool>().unwrap(), true);
    assert_eq!(reader.read::<bool>().unwrap(), false);
    assert_eq!(reader.read::<bool>().unwrap(), true);
    assert_eq!(reader.bits_read(), 3);
}

#[test]
fn continuation_read_that_overflows_is_detected() {
    // every continuation bit set: with 9-bit chunks the eighth chunk would
    // start past bit 63 of the result
    let reader = BitReader::new(vec![0xff; 16], None);
    assert!(reader.continuation_read_overflows(9));
    let reader = BitReader::new(vec![0x00; 16], None);
    assert!(!reader.continuation_read_overflows(9));
}

#[test]
fn continuation_read_that_runs_out_fails() {
    let mut reader = BitReader::new(vec![0xff; 8], None);
    assert!(!reader.continuation_read_overflows(1));
    assert_eq!(reader.read_bits_with_continuation_bit(1), Err(ReadError::EndOfInput));
}

#[test]
fn chunk_size_defaults_to_ten() {
    let mut reader = BitReader::new(vec![], None);
    assert_eq!(reader.default_chunk_size(), 10);
    reader.set_default_chunk_size(9);
    assert_eq!(reader.default_chunk_size(), 9);
    let reader = BitReader::new(vec![], Some(4));
    assert_eq!(reader.default_chunk_size(), 4);
}

#[test]
fn the_reader_holds_the_current_word() {
    let bytes: Vec<u8> = (1..=12).collect();
    let mut reader = BitReader::new(bytes, None);
    assert_eq!(reader.bit_pos(), 0);
    assert_eq!(reader.buffer(), u64::from_le_bytes([1, 2, 3, 4, 5, 6, 7, 8]));
    reader.read_bits(60).unwrap();
    assert_eq!(reader.bit_pos(), 60);
    reader.read_bits(8).unwrap();
    assert_eq!(reader.bit_pos(), 4);
    assert_eq!(reader.bits_read(), 68);
    assert_eq!(reader.buffer(), u64::from_le_bytes([9, 10, 11, 12, 0, 0, 0, 0]));
}
