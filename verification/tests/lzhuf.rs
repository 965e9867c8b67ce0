//! The LZHUF codec: bit reader behaviour and the end-to-end decoder
//! and encoder vectors.

use plusendi::lzhuf::Biterator;
use plusendi::lzhuf::Decoder;
use plusendi::lzhuf::Encoder;

#[test]
fn get_bytes() {
    let input = vec![0xFAu8, 0x50, 0xFF, 0x00, 0x96, 0xC3];
    let mut biterator = Biterator::new(input);

    assert_eq!(biterator.get_byte(), Some(0xFA));
    assert_eq!(biterator.get_byte(), Some(0x50));
    assert_eq!(biterator.get_byte(), Some(0xFF));
    assert_eq!(biterator.get_byte(), Some(0x00));
    assert_eq!(biterator.get_byte(), Some(0x96));
    assert_eq!(biterator.get_byte(), Some(0xC3));
}

#[test]
fn get_bits() {
    let input = vec![0xFAu8, 0x50, 0x96, 0xC3];
    let mut biterator = Biterator::new(input);

    let expected: [u8; 32] = [
        1, 1, 1, 1, 1, 0, 1, 0, 0, 1, 0, 1, 0, 0, 0, 0, 1, 0, 0, 1, 0, 1, 1, 0, 1, 1, 0, 0, 0, 0,
        1, 1,
    ];
    for bit in expected {
        assert_eq!(biterator.get_bit(), Some(bit));
    }
    assert_eq!(biterator.get_bit(), None);
}

#[test]
fn test_decode_single_byte() {
    let input = vec![0xECu8, 0x80];
    let mut decoder = Decoder::new(input);
    let data = decoder.decode(1).unwrap();
    assert_eq!(data, vec![0x4Du8]);
}

#[test]
fn test_encode_single_byte() {
    let input = vec![0x4Du8];
    let mut encoder = Encoder::new();
    encoder.encode(&input);
    let output = encoder.finish();
    assert_eq!(output, vec![0xECu8, 0x80]);
}

#[test]
fn test_decode_two_bytes() {
    let input = vec![0xECu8, 0xE2, 0x80];
    let mut decoder = Decoder::new(input);
    let data = decoder.decode(2).unwrap();
    assert_eq!(data, vec![0x4Du8, 0x4D]);
}

#[test]
fn test_encode_two_byte() {
    let input = vec![0x4Du8, 0x4D];
    let mut encoder = Encoder::new();
    encoder.encode(&input);
    let output = encoder.finish();
    assert_eq!(output, vec![0xECu8, 0xE2, 0x80]);
}

#[test]
fn test_decode_thirty_two_bytes() {
    let input = vec![0xECu8, 0xD4, 0x00, 0x00];
    let mut decoder = Decoder::new(input);
    let data = decoder.decode(32).unwrap();
    assert_eq!(data, vec![0x4Du8; 32]);
}

#[test]
fn test_encode_thirty_two_byte() {
    let input = vec![0x4Du8; 32];
    let mut encoder = Encoder::new();
    encoder.encode(&input);
    let output = encoder.finish();
    assert_eq!(output, vec![0xECu8, 0xD4, 0x00, 0x00]);
}

#[test]
fn codec_round_trip_text() {
    let text = b"THE QUICK BROWN FOX JUMPS OVER THE LAZY DOG 0123456789 the quick \
                 brown fox jumps over the lazy dog -- again and again and again"
        .to_vec();
    let mut encoder = Encoder::new();
    encoder.encode(&text);
    let compressed = encoder.finish();
    let mut decoder = Decoder::new(compressed);
    let decoded = decoder.decode(text.len()).unwrap();
    assert_eq!(decoded, text);
}

#[test]
fn codec_round_trip_repetitive() {
    let mut text: Vec<u8> = Vec::new();
    for i in 0..600u32 {
        text.push((i % 7) as u8 + 0x41);
        if i % 13 == 0 {
            text.push(0x20);
        }
    }
    let mut encoder = Encoder::new();
    encoder.encode(&text);
    let compressed = encoder.finish();
    assert!(compressed.len() < text.len());
    let mut decoder = Decoder::new(compressed);
    let decoded = decoder.decode(text.len()).unwrap();
    assert_eq!(decoded, text);
}

#[test]
fn codec_round_trip_empty() {
    let text: Vec<u8> = Vec::new();
    let mut encoder = Encoder::new();
    encoder.encode(&text);
    let compressed = encoder.finish();
    assert!(compressed.is_empty());
    let mut decoder = Decoder::new(compressed);
    let decoded = decoder.decode(0).unwrap();
    assert!(decoded.is_empty());
}

#[test]
fn decode_empty_input_is_eof() {
    let mut decoder = Decoder::new(Vec::new());
    assert!(decoder.decode(1).is_err());
}
