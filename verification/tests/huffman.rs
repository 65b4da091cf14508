use compressor::bitreader::{BitReader, DecodeError};
use compressor::bitwriter::BitWriter;
use compressor::huffman::{decode, encode, Node};
use rand::RngCore;

fn encode_to_bytes(input: &mut Vec<u8>) -> Vec<u8> {
    encode(input)
}

fn decode_to_bytes(input: &[u8]) -> Vec<u8> {
    decode(input.to_vec()).unwrap()
}

#[test]
fn huffman_encode_empty_input() {
    let output = encode_to_bytes(&mut vec![]);
    assert_eq!(output, vec![]);
}

#[test]
fn huffman_decoded_file_matches_input() { // 5 MiB random input
    let mut input = vec![0u8; 1024 * 1024 * 5];
    rand::rng().fill_bytes(&mut input);
    let decoded = decode_to_bytes(&encode_to_bytes(&mut input));

    assert!(input == decoded, "Decoded file does not match the input");
}

#[test]
fn huffman_encoded_file_is_smaller_than_input() { // 10 KiB
    let mut input = vec![0u8; 1024 * 10];
    let compressed = encode_to_bytes(&mut input);

    assert!(compressed.len() < input.len(), "Encoded file is larger than the input");
}

#[test]
fn huffman_small_inputs_round_trip() {
    let inputs: Vec<Vec<u8>> = vec![
        b"a".to_vec(),
        b"abracadabra".to_vec(),
        vec![7; 1000],
        (0..=255).collect(),
        (0..4096u32).map(|i| (i * i % 251) as u8).collect(),
    ];
    for input in inputs {
        let encoded = encode(&input);
        assert_eq!(decode(encoded).unwrap(), input);
    }
}

#[test]
fn huffman_encoding_of_a_single_byte() {
    // chunk width 4 in six bits, 256 counts of five bits each (only the
    // count of `a` is 1), then the two-bit code of `a`
    let mut expected = vec![0u8; 161];
    expected[0] = 4;
    expected[61] = 16;
    expected[160] = 64;
    assert_eq!(encode(b"a"), expected);
}

#[test]
fn huffman_encoding_of_aab() {
    let mut expected = vec![0u8; 162];
    expected[0] = 4;
    expected[61] = 32;
    expected[62] = 2;
    expected[160] = 192;
    expected[161] = 2;
    assert_eq!(encode(b"aab"), expected);
}

#[test]
fn huffman_header_holds_the_counts() {
    let input = b"abracadabra";
    let encoded = encode(input);
    let mut reader = BitReader::new(encoded, None);
    let chunk = reader.read_bits(6).unwrap() as u32;
    assert_eq!(chunk, 4);
    let mut counts = Vec::new();
    for _ in 0..256 {
        counts.push(reader.read_bits_with_continuation_bit(chunk).unwrap());
    }
    assert_eq!(counts[b'a' as usize], 5);
    assert_eq!(counts[b'b' as usize], 2);
    assert_eq!(counts[b'r' as usize], 2);
    assert_eq!(counts[b'c' as usize], 1);
    assert_eq!(counts[b'd' as usize], 1);
    assert_eq!(counts.iter().sum::<u64>(), 11);
}

#[test]
fn huffman_chunk_width_for_one_large_count() {
    // width 4: 255 * 5 + 6 * 5 = 1305 bits; width 5: 255 * 6 + 5 * 6 = 1560
    let input = vec![0u8; 1 << 20];
    let encoded = encode(&input);
    let mut reader = BitReader::new(encoded, None);
    assert_eq!(reader.read_bits(6).unwrap(), 4);
}

#[test]
fn huffman_decode_of_empty_input_is_empty() {
    assert_eq!(decode(Vec::new()), Ok(Vec::new()));
}

#[test]
fn huffman_empty_input_round_trips() {
    assert_eq!(decode(encode(&[])), Ok(Vec::new()));
}

#[test]
fn huffman_header_cut_short_fails() {
    assert_eq!(decode(vec![4]), Err(DecodeError::EndOfInput));
}

#[test]
fn huffman_truncated_header_fails() {
    let encoded = encode(b"hello");
    assert_eq!(decode(encoded[..100].to_vec()), Err(DecodeError::EndOfInput));
}

#[test]
fn huffman_count_past_64_bits_is_corrupt() {
    // chunk width 9 and every continuation bit set
    let mut bytes = vec![0xff; 24];
    bytes[0] = 0b1100_1001;
    assert_eq!(decode(bytes), Err(DecodeError::CorruptInput));
}

#[test]
fn huffman_counts_that_sum_past_64_bits_are_corrupt() {
    let mut writer = BitWriter::new(None);
    writer.write_bits(6, 63);
    for i in 0..256 {
        let count = if i < 2 { u64::MAX } else { 0 };
        writer.write_bits_with_continuation_bit(63, count);
    }
    writer.flush();
    assert_eq!(decode(writer.into_bytes()), Err(DecodeError::CorruptInput));
}

#[test]
fn huffman_all_zero_counts_decode_to_nothing() {
    let mut writer = BitWriter::new(None);
    writer.write_bits(6, 4);
    for _ in 0..256 {
        writer.write_bits_with_continuation_bit(4, 0);
    }
    writer.write_bits(16, 0xffff);
    writer.flush();
    assert_eq!(decode(writer.into_bytes()), Ok(Vec::new()));
}

#[test]
fn huffman_decoding_stops_at_the_total_count() {
    let mut encoded = encode(b"abracadabra");
    encoded.extend_from_slice(&[0xaa; 16]);
    assert_eq!(decode(encoded).unwrap(), b"abracadabra".to_vec());
}

#[test]
fn node_freq_reads_either_kind() {
    let leaf = Node::Leaf { symbol: 3, freq: 9 };
    let internal = Node::Internal { freq: 21, left: 0, right: 1 };
    assert_eq!(leaf.freq(), 9);
    assert_eq!(internal.freq(), 21);
}

#[test]
fn huffman_encoding_stays_within_its_bound() {
    for n in [1usize, 10, 1000, 70_000] {
        let input: Vec<u8> = (0..n).map(|i| (i * 37 % 256) as u8).collect();
        let bits = 8 * encode(&input).len();
        assert!(bits <= 6 + 1_048_576 + 512 * n + 7);
    }
}
