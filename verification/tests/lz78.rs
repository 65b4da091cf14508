use compressor::bitreader::{BitReader, DecodeError};
use compressor::bitwriter::BitWriter;
use compressor::lz78::{decode, encode, Pair, PAIR_CHUNK_SIZE};
use rand::RngCore;

fn encode_to_bytes(input: &mut Vec<u8>) -> Vec<u8> {
    encode(input)
}

fn decode_to_bytes(input: &[u8]) -> Vec<u8> {
    decode(input.to_vec()).unwrap()
}

#[test]
fn encode_empty_input() {
    let output = encode_to_bytes(&mut vec![]);
    assert_eq!(output, vec![]);
}

#[test]
fn decoded_file_matches_input() { // 5 MiB random input
    let mut input = vec![0u8; 1024 * 1024 * 5];
    rand::rng().fill_bytes(&mut input);
    let decoded = decode_to_bytes(&encode_to_bytes(&mut input));

    assert!(input == decoded, "Decoded file does not match the input");
}

#[test]
fn encoded_file_is_smaller_than_input() { // 10 KiB
    let mut input = vec![0u8; 1024 * 10];
    let compressed = encode_to_bytes(&mut input);

    assert!(compressed.len() < input.len(), "Encoded file is larger than the input");
}

#[test]
fn decode_of_empty_input_is_empty() {
    assert_eq!(decode(Vec::new()), Ok(Vec::new()));
}

#[test]
fn small_inputs_round_trip() {
    let inputs: Vec<Vec<u8>> = vec![
        b"a".to_vec(),
        b"abababababab".to_vec(),
        b"TOBEORNOTTOBEORTOBEORNOT".to_vec(),
        vec![0, 255, 0, 255, 0, 255, 1],
        (0..=255).collect(),
    ];
    for input in inputs {
        let encoded = encode(&input);
        assert_eq!(decode(encoded).unwrap(), input);
    }
}

#[test]
fn encoding_of_abab() {
    // phrases a, b, ab: the chunk width in six bits, then the pairs
    // (0, a), (0, b), (1, b)
    let encoded = encode(b"abab");
    let mut expected = BitWriter::new(Some(PAIR_CHUNK_SIZE));
    expected.write_bits(6, 9);
    expected.write_bits_with_continuation_bit(9, 0);
    expected.write(&true);
    expected.write_bits(8, b'a' as u64);
    expected.write_bits_with_continuation_bit(9, 0);
    expected.write(&true);
    expected.write_bits(8, b'b' as u64);
    expected.write_bits_with_continuation_bit(9, 1);
    expected.write(&true);
    expected.write_bits(8, b'b' as u64);
    expected.flush();
    assert_eq!(encoded, expected.into_bytes());
    assert_eq!(decode(encoded).unwrap(), b"abab".to_vec());
}

#[test]
fn reference_to_a_missing_entry_is_corrupt() {
    let mut writer = BitWriter::new(Some(PAIR_CHUNK_SIZE));
    writer.write_bits(6, PAIR_CHUNK_SIZE as u64);
    writer.write(&Pair::new(5, Some(b'x')));
    writer.flush();
    assert_eq!(decode(writer.into_bytes()), Err(DecodeError::CorruptInput));
}

#[test]
fn index_past_64_bits_is_corrupt() {
    // chunk width 9 and every continuation bit set
    let mut bytes = vec![0xff; 24];
    bytes[0] = 0b1100_1001;
    assert_eq!(decode(bytes), Err(DecodeError::CorruptInput));
}

#[test]
fn pair_new_keeps_its_fields() {
    let p = Pair::new(7, Some(3));
    assert_eq!(p.index, 7);
    assert_eq!(p.symbol, Some(3));
}

#[test]
fn encoding_that_ends_inside_a_known_phrase() {
    // phrases a, then a again, which is in the dictionary: (0, a), (1, none)
    let encoded = encode(b"aa");
    let mut expected = BitWriter::new(Some(PAIR_CHUNK_SIZE));
    expected.write_bits(6, PAIR_CHUNK_SIZE as u64);
    expected.write(&Pair::new(0, Some(b'a')));
    expected.write(&Pair::new(1, None));
    expected.flush();
    assert_eq!(encoded, expected.into_bytes());
    assert_eq!(decode(encoded).unwrap(), b"aa".to_vec());
}

#[test]
fn lz78_encoding_stays_within_its_bound() {
    for n in [1usize, 2, 100, 5000] {
        let input: Vec<u8> = (0..n).map(|i| (i * 131 % 256) as u8).collect();
        let bits = 8 * encode(&input).len();
        assert!(bits <= 6 + 39 * (n + 1) + 7);
    }
}

#[test]
fn a_pair_reads_back_through_bytes() {
    let pairs = [Pair::new(0, Some(7)), Pair::new(1_000_000, Some(255)), Pair::new(3, None)];
    let mut writer = BitWriter::new(Some(PAIR_CHUNK_SIZE));
    writer.write_bits(5, 21);
    let mut ends = Vec::new();
    for p in &pairs {
        writer.write(p);
        ends.push(writer.bits_written());
    }
    writer.flush();
    let mut reader = BitReader::new(writer.into_bytes(), Some(PAIR_CHUNK_SIZE));
    assert_eq!(reader.read_bits(5).unwrap(), 21);
    for (p, end) in pairs.iter().zip(ends) {
        assert_eq!(reader.read::<Pair>().unwrap(), *p);
        assert_eq!(reader.bits_read(), end);
    }
}
