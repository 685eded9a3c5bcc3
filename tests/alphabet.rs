use std::collections::HashMap;

use base_x::alphabet::Binary;
use base_x::{Alphabet, CharLookup};

#[test]
fn lookup_str() {
    let alphabet = "abcd";

    let lookup: HashMap<u32, usize> = alphabet.lookup_table();

    assert_eq!(CharLookup::get(&lookup, 'a'), Some(0));
    assert_eq!(CharLookup::get(&lookup, 'b'), Some(1));
    assert_eq!(CharLookup::get(&lookup, 'c'), Some(2));
    assert_eq!(CharLookup::get(&lookup, 'd'), Some(3));
    assert_eq!(CharLookup::get(&lookup, 'e'), None);
    assert_eq!(CharLookup::get(&lookup, '7'), None);
    assert_eq!(CharLookup::get(&lookup, '$'), None);
}

#[test]
fn lookup_bytes() {
    let alphabet: &[u8] = b"qwer";

    let lookup: [u8; 256] = alphabet.lookup_table();

    assert_eq!(lookup.get('q'), Some(0));
    assert_eq!(lookup.get('w'), Some(1));
    assert_eq!(lookup.get('e'), Some(2));
    assert_eq!(lookup.get('r'), Some(3));
    assert_eq!(lookup.get('t'), None);
    assert_eq!(lookup.get('*'), None);
    assert_eq!(lookup.get('_'), None);
}

#[test]
fn lookup_bytes_rejects_wide_chars() {
    let alphabet: &[u8] = b"qwer";
    let lookup: [u8; 256] = alphabet.lookup_table();
    // 'ő' is U+0151; its low byte is 'Q' (0x51), which must not count.
    let alphabet_q: &[u8] = b"Qx";
    let lookup_q: [u8; 256] = alphabet_q.lookup_table();
    assert_eq!(lookup_q.get('Q'), Some(0));
    assert_eq!(lookup_q.get('\u{151}'), None);
    assert_eq!(lookup.get('\u{171}'), None);
    assert_eq!(CharLookup::get(&&lookup, 'r'), Some(3));
}

#[test]
fn lookup_str_multibyte() {
    let alphabet = "\u{1F601}\u{1F600}x";
    let lookup: HashMap<u32, usize> = alphabet.lookup_table();
    assert_eq!(CharLookup::get(&lookup, '\u{1F601}'), Some(0));
    assert_eq!(CharLookup::get(&lookup, '\u{1F600}'), Some(1));
    assert_eq!(CharLookup::get(&lookup, 'x'), Some(2));
    assert_eq!(CharLookup::get(&lookup, 'y'), None);
}

#[test]
fn alphabet_accessors() {
    let bytes: &[u8] = b"abc";
    assert_eq!(bytes.base(), 3);
    assert_eq!(Alphabet::get(&bytes, 2), 'c');
    assert_eq!(Alphabet::as_bytes(&bytes), b"abc");

    let text = "x\u{e9}\u{1F600}";
    assert_eq!(text.base(), 3);
    assert_eq!(Alphabet::get(&text, 1), '\u{e9}');
    assert_eq!(Alphabet::get(&text, 2), '\u{1F600}');
    assert_eq!(Alphabet::as_bytes(&text), "x\u{e9}\u{1F600}".as_bytes());
}

#[test]
fn binary_alphabet() {
    let b = Binary;
    assert_eq!(b.base(), 2);
    assert_eq!(Alphabet::get(&b, 0), '0');
    assert_eq!(Alphabet::get(&b, 1), '1');
    assert_eq!(Alphabet::as_bytes(&b), b"01");
    let lookup = b.lookup_table();
    assert_eq!(lookup.get('0'), Some(0));
    assert_eq!(lookup.get('1'), Some(1));
    assert_eq!(lookup.get('2'), None);
    assert_eq!(Alphabet::encode(&b, &[0xff, 0x00]), "1111111100000000");
    assert_eq!(Alphabet::encode(&b, &[0x00, 0x05]), "0000000000000101");
    assert_eq!(Alphabet::encode(&b, &[0x01]), "00000001");
    assert_eq!(Alphabet::encode(&b, &[0x80, 0x7f]), "1000000001111111");
    assert_eq!(Alphabet::encode(&b, &[]), "");
    assert_eq!(base_x::encode(Binary, &[0x00, 0x05]), "0101");
    assert_eq!(base_x::decode(Binary, "0101").unwrap(), vec![0x00, 0x05]);
}

#[test]
fn alphabet_encode_methods() {
    let bytes: &[u8] = b"0123456789abcdef";
    assert_eq!(Alphabet::encode(&bytes, &[0x00, 0xde, 0xad]), "0dead");
    let text = "0123456789abcdef";
    assert_eq!(Alphabet::encode(&text, &[0x00, 0xde, 0xad]), "0dead");
    assert_eq!(Alphabet::encode(&text, &[]), "");
}
