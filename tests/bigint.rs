use base_x::bigint::BigUint;

#[test]
fn big_uint_from_bytes() {
    let bytes: &[u8] = &[
                  0xDE,0xAD,0x00,0x00,0x00,0x13,
        0x37,0xAD,0x00,0x00,0x00,0x00,0xDE,0xAD,
    ];

    let big = BigUint::from(bytes);

    assert_eq!(big.chunks, vec![0x0000DEAD, 0x00000013, 0x37AD0000, 0x0000DEAD]);
}

#[test]
fn big_uint_shr() {
    let mut big = BigUint {
        chunks: vec![0x0000DEAD,0x00000013, 0x37AD0000, 0x0000DEAD]
    };

    big >>= 8;

    assert_eq!(big.chunks, vec![0x000000DE, 0xAD000000, 0x1337AD00, 0x000000DE]);
}

#[test]
fn big_uint_rem() {
    let big = BigUint {
        chunks: vec![1337]
    };

    assert_eq!(big.rem(100), 37);
}

#[test]
fn big_uint_div() {
    let mut big = BigUint {
        chunks: vec![0x136AD712,0x84322759]
    };

    big /= 58;

    let merged = ((big.chunks[0] as u64) << 32) | big.chunks[1] as u64;

    assert_eq!(merged, 0x136AD71284322759 / 58);
}

#[test]
fn big_uint_from_bytes_whole_words() {
    let big = BigUint::from_bytes_be(&[0x01, 0x02, 0x03, 0x04, 0x05, 0x06, 0x07, 0x08]);
    assert_eq!(big.chunks, vec![0x01020304, 0x05060708]);
    let short: &[u8] = &[0x01, 0x02, 0x03, 0x04, 0x05];
    assert_eq!(BigUint::from(short).chunks, vec![0x00000001, 0x02030405]);
    let empty = BigUint::from_bytes_be(&[]);
    assert!(empty.chunks.is_empty());
    assert!(empty.is_zero());
}

#[test]
fn big_uint_rem_div_returns_remainder() {
    let mut big = BigUint { chunks: vec![0x00000001, 0x00000000] };
    // 2^32 = 58 * 74051160 + 16
    let r = big.rem_div(58);
    assert_eq!(r, 16);
    assert_eq!(big.chunks, vec![0, 74051160]);
}

#[test]
fn big_uint_is_zero() {
    assert!(BigUint { chunks: vec![0, 0, 0] }.is_zero());
    assert!(!BigUint { chunks: vec![0, 0, 1] }.is_zero());
    assert!(!BigUint { chunks: vec![1, 0, 0] }.is_zero());
}

#[test]
fn big_uint_shr_wide() {
    let mut big = BigUint { chunks: vec![0x12345678, 0x9ABCDEF0] };
    big >>= 36;
    assert_eq!(big.chunks, vec![0, 0x01234567]);
    let mut none = BigUint { chunks: vec![7] };
    none >>= 0;
    assert_eq!(none.chunks, vec![7]);
}

#[test]
fn big_uint_div_by_zero_keeps_value() {
    let mut big = BigUint { chunks: vec![5, 6] };
    big /= 0;
    assert_eq!(big.chunks, vec![5, 6]);
}
