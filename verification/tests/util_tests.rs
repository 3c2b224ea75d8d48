use magic_pake::util::{
    hash, log2, rng, to_array, to_be_bytes, u8_vec_to_bool_vec, xor, LENGTH, SECURITY_PARAM,
};
use sha2::{Digest, Sha256};

#[test]
fn test_hash() {
    let h1 = hash(&[b"hello", b"world"]);
    let mut hasher = Sha256::new();
    hasher.update("hello");
    hasher.update("world");
    let h2 = hasher.finalize();
    let h2 = <[u8; LENGTH]>::try_from(h2.as_ref()).expect("digest too long");
    assert_eq!(h1, h2);
}

#[test]
fn test_log2() {
    assert!(log2(1) == 0);
    assert!(log2(2) == 1);
    assert!(log2(3) == 2);
    assert!(log2(4) == 2);
    assert!(log2(5) == 3);
    assert!(log2(8) == 3);
    assert!(log2(9) == 4);
}

#[test]
fn log2_of_large_numbers() {
    assert_eq!(log2(1 << 40), 40);
    assert_eq!(log2((1 << 40) + 1), 41);
    assert_eq!(log2(u64::MAX), 64);
}

#[test]
fn hash_of_known_input() {
    // SHA-256 of the three bytes "abc".
    let expected: [u8; 32] = [
        0xba, 0x78, 0x16, 0xbf, 0x8f, 0x01, 0xcf, 0xea, 0x41, 0x41, 0x40, 0xde, 0x5d, 0xae, 0x22,
        0x23, 0xb0, 0x03, 0x61, 0xa3, 0x96, 0x17, 0x7a, 0x9c, 0xb4, 0x10, 0xff, 0x61, 0xf2, 0x00,
        0x15, 0xad,
    ];
    assert_eq!(hash(&[b"abc"]), expected);
    assert_eq!(hash(&[b"a", b"", b"bc"]), expected);
}

#[test]
fn bits_of_bytes_start_at_the_low_end() {
    let bits = u8_vec_to_bool_vec(&[0b0000_0101, 0x80]);
    let expected = vec![
        true, false, true, false, false, false, false, false, false, false, false, false, false,
        false, false, true,
    ];
    assert_eq!(bits, expected);
    assert_eq!(u8_vec_to_bool_vec(&[]), Vec::<bool>::new());
}

#[test]
fn to_array_copies_every_byte() {
    let bytes: Vec<u8> = (0..32).collect();
    let array = to_array(&bytes);
    for i in 0..32 {
        assert_eq!(array[i], i as u8);
    }
}

#[test]
fn xor_is_bytewise() {
    let mut a = [0u8; 32];
    let mut b = [0u8; 32];
    for i in 0..32 {
        a[i] = i as u8;
        b[i] = 0xff;
    }
    let c = xor(a, b);
    for i in 0..32 {
        assert_eq!(c[i], (i as u8) ^ 0xff);
    }
    assert_eq!(xor(c, b), a);
}

#[test]
fn big_endian_bytes() {
    assert_eq!(to_be_bytes(1), vec![0, 0, 0, 0, 0, 0, 0, 1]);
    assert_eq!(
        to_be_bytes(0x0102_0304_0506_0708),
        vec![1, 2, 3, 4, 5, 6, 7, 8]
    );
}

#[test]
fn random_numbers_stay_below_the_bound() {
    assert_eq!(rng(1), 0);
    for _ in 0..1000 {
        assert!(rng(10) < 10);
    }
    let seen: Vec<bool> = (0..4).map(|v| (0..1000).any(|_| rng(4) == v)).collect();
    assert_eq!(seen, vec![true; 4]);
}

#[test]
fn security_parameter() {
    assert_eq!(SECURITY_PARAM, 256);
    assert_eq!(LENGTH, SECURITY_PARAM / 8);
}
