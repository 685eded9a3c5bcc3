use base_x::decoder::{AsciiDecoder, Utf8Decoder};
use base_x::encoder::{AsciiEncoder, Utf8Encoder};
use base_x::{decode, encode, Alphabet, DecodeError};

const BASE58: &str = "123456789ABCDEFGHJKLMNPQRSTUVWXYZabcdefghijkmnopqrstuvwxyz";

#[test]
fn is_unicode_sound() {
    // binary, kinda...
    let alphabet = "\u{1F601}\u{1F600}";

    let encoded = encode(alphabet, &[0xff,0x00,0xff,0x00]);
    let decoded = decode(alphabet, &encoded).unwrap();

    let one = "\u{1F600}".repeat(8);
    let zero = "\u{1F601}".repeat(8);
    assert_eq!(encoded, format!("{}{}{}{}", one, zero, one, zero));
    assert_eq!(decoded, &[0xff,0x00,0xff,0x00]);
}

#[test]
fn base2_byte_ff() {
    assert_eq!(encode("01", &[0xFF]), "11111111");
    assert_eq!(decode("01", "11111111").unwrap(), vec![0xFF]);
    let bytes: &[u8] = b"01";
    assert_eq!(encode(bytes, &[0xFF]), "11111111");
    assert_eq!(decode(bytes, "11111111").unwrap(), vec![0xFF]);
}

#[test]
fn base58_leading_zero() {
    assert_eq!(encode(BASE58, &[0x00, 0x01]), "12");
    assert_eq!(decode(BASE58, "12").unwrap(), vec![0x00, 0x01]);
    assert_eq!(encode(BASE58, &[0x00, 0x00, 0x00, 0x3a]), "11121");
}

#[test]
fn base58_known_vector() {
    // "Hello World!"
    let input = b"Hello World!";
    assert_eq!(encode(BASE58, input), "2NEpo7TZRRrLZSi2U");
    assert_eq!(decode(BASE58, "2NEpo7TZRRrLZSi2U").unwrap(), input.to_vec());
    assert_eq!(encode(BASE58.as_bytes(), input), "2NEpo7TZRRrLZSi2U");
}

#[test]
fn hex_values() {
    let hex = "0123456789abcdef";
    assert_eq!(encode(hex, &[0xde, 0xad, 0xbe, 0xef]), "deadbeef");
    assert_eq!(encode(hex, &[0x01]), "1");
    assert_eq!(decode(hex, "deadbeef").unwrap(), vec![0xde, 0xad, 0xbe, 0xef]);
    assert_eq!(decode(hex, "100").unwrap(), vec![0x01, 0x00]);
}

#[test]
fn leading_zero_bytes_round_trip() {
    for n in 1..6usize {
        let zeros = vec![0u8; n];
        let s = encode(BASE58, &zeros);
        assert_eq!(s, "1".repeat(n));
        assert_eq!(decode(BASE58, &s).unwrap(), zeros);
        let b = encode("01", &zeros);
        assert_eq!(b, "0".repeat(n));
        assert_eq!(decode("01", &b).unwrap(), zeros);
    }
}

#[test]
fn empty_input() {
    assert_eq!(encode(BASE58, &[]), "");
    assert_eq!(decode(BASE58, "").unwrap(), Vec::<u8>::new());
    let bytes: &[u8] = b"01";
    assert_eq!(encode(bytes, &[]), "");
    assert_eq!(decode(bytes, "").unwrap(), Vec::<u8>::new());
}

#[test]
fn invalid_symbol_rejected() {
    assert!(decode(BASE58, "0").is_err());
    assert!(decode(BASE58, "12l").is_err());
    assert!(decode(BASE58, "O11").is_err());
    assert!(decode("01", "0102").is_err());
    let bytes: &[u8] = b"01";
    assert!(decode(bytes, "01x1").is_err());
    assert!(decode(bytes, "0\u{131}").is_err());
    let err: DecodeError = decode("01", "2").unwrap_err();
    assert_eq!(err.description(), "Can not decode the provided data");
}

#[test]
fn round_trip_buffers() {
    let buffers: Vec<Vec<u8>> = vec![
        vec![0],
        vec![0, 0, 1],
        vec![255, 255, 255, 255, 255],
        vec![0, 255, 0, 1, 2, 3, 4, 5, 6, 7, 8],
        (0..=255u8).collect(),
    ];
    for alphabet in ["01", "012", "0123456789abcdef", BASE58, "\u{1F601}\u{1F600}\u{e9}"] {
        for b in &buffers {
            let s = encode(alphabet, b);
            assert_eq!(&decode(alphabet, &s).unwrap(), b);
            assert_eq!(encode(alphabet, &decode(alphabet, &s).unwrap()), s);
        }
    }
}

#[test]
fn round_trip_strings() {
    for s in ["1", "11", "1112", "2NEpo7TZRRrLZSi2U", "z", "111z"] {
        let b = decode(BASE58, s).unwrap();
        assert_eq!(encode(BASE58, &b), s);
    }
}

#[test]
fn byte_and_text_alphabets_agree() {
    let bytes: &[u8] = BASE58.as_bytes();
    for input in [&[0u8, 0, 7, 9][..], &[1, 2, 3], &[0], &[]] {
        let a = encode(bytes, input);
        let b = encode(BASE58, input);
        assert_eq!(a, b);
        assert_eq!(decode(bytes, &a).unwrap(), decode(BASE58, &b).unwrap());
    }
    assert_eq!(decode(bytes, "0OIl").is_err(), decode(BASE58, "0OIl").is_err());
}

#[test]
fn repeated_calls_agree() {
    let input = [0u8, 13, 37, 255, 0, 1];
    let first = encode(BASE58, &input);
    for _ in 0..5 {
        assert_eq!(encode(BASE58, &input), first);
        assert_eq!(decode(BASE58, &first).unwrap(), input.to_vec());
    }
}

#[test]
fn encoders_and_decoders_directly() {
    let bytes: &[u8] = BASE58.as_bytes();
    let chars: Vec<char> = BASE58.chars().collect();
    let input = [0u8, 0, 1, 2, 3, 200];
    let expected = encode(BASE58, &input);
    assert_eq!(AsciiEncoder::encode(bytes, &input), expected);
    assert_eq!(Utf8Encoder::encode(&chars, &input), expected);
    assert_eq!(AsciiEncoder::encode(bytes, &[]), "");
    assert_eq!(Utf8Encoder::encode(&chars, &[]), "");
    let lookup = bytes.lookup_table();
    assert_eq!(AsciiDecoder::decode(bytes, lookup, &expected).unwrap(), input.to_vec());
    assert_eq!(Utf8Decoder::decode(&chars, &expected).unwrap(), input.to_vec());
    assert!(AsciiDecoder::decode(bytes, lookup, "10").is_err());
    assert!(Utf8Decoder::decode(&chars, "10").is_err());
    assert_eq!(Utf8Decoder::decode(&chars, "").unwrap(), Vec::<u8>::new());
}

#[test]
fn large_unicode_alphabet() {
    let alphabet: String = (0..300u32).map(|i| char::from_u32(0x4e00 + i).unwrap()).collect();
    let input = [0u8, 1, 2, 3, 250, 251, 252, 253];
    let s = encode(alphabet.as_str(), &input);
    assert_eq!(decode(alphabet.as_str(), &s).unwrap(), input.to_vec());
    assert!(s.starts_with('\u{4e00}'));
}
