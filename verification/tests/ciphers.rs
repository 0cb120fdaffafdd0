use base64::Engine;
use blowfish::cipher::{Array, BlockCipherEncrypt, KeyInit};

use zkitap::kk::{unpad, CryptoError, DEFAULT_PUBLISHER_KEY, KK};
use zkitap::kry::{default_kry_code, parse_kry_code, parse_kry_code_checked, KryCode, KrySWFCrypto};
use zkitap::crypto::{read_u30, scan_method_body, AbcModel, KKDecryptor, DECRYPT_KEY};
use zkitap::publisher::{decrypt_publisher, decrypt_publisher_checked};

fn b64(data: &[u8]) -> String {
    base64::engine::general_purpose::STANDARD.encode(data)
}

fn bf_encrypt(key: &[u8], data: &[u8]) -> Vec<u8> {
    let c = <blowfish::Blowfish as KeyInit>::new_from_slice(key).unwrap();
    let mut buf = data.to_vec();
    let (blocks, _) = Array::slice_as_chunks_mut(&mut buf);
    c.encrypt_blocks(blocks);
    buf
}

fn pkcs7(data: &[u8]) -> Vec<u8> {
    let n = 8 - data.len() % 8;
    let mut v = data.to_vec();
    v.extend(std::iter::repeat(n as u8).take(n));
    v
}

fn xor(data: &[u8], key: &[u8]) -> Vec<u8> {
    data.iter().enumerate().map(|(i, b)| b ^ key[i % key.len()]).collect()
}

fn nibbles(key: &[u8]) -> Vec<u8> {
    key.iter().flat_map(|b| [b >> 4, b & 0x0f]).collect()
}

/// The `fd1` encoding of `plain` under `key` (with the `fd2` layer).
fn fd1_encode(plain: &str, key: &str) -> String {
    let t = b64(&bf_encrypt(&nibbles(key.as_bytes()), &pkcs7(plain.as_bytes())));
    b64(&xor(t.as_bytes(), key.as_bytes())).chars().rev().collect()
}

#[test]
fn apply_xor_twice_gives_back_the_input() {
    let data = b"The quick brown fox".to_vec();
    let once = KK::apply_xor(&data, "k3y");
    assert_eq!(once[0], b'T' ^ b'k');
    assert_eq!(once[1], b'h' ^ b'3');
    assert_ne!(once, data);
    assert_eq!(KK::apply_xor(&once, "k3y"), data);
    assert_eq!(KK::apply_xor(&data, ""), data);
}

#[test]
fn fd2_reverses_decodes_and_xors() {
    let key = "kxk";
    let input: String = b64(&xor(b"hello", key.as_bytes())).chars().rev().collect();
    assert_eq!(KK::fd2(&input, key).unwrap(), "hello");
    assert_eq!(KK::fd2("!!", key), Err(CryptoError::Base64 { context: "fd2 base64" }));
}

#[test]
fn fd1_round_trip() {
    let enc = fd1_encode("<fernusCode>1x2x3</fernusCode>", DEFAULT_PUBLISHER_KEY);
    assert_eq!(
        KK::fd1(&enc, DEFAULT_PUBLISHER_KEY, true).unwrap(),
        "<fernusCode>1x2x3</fernusCode>"
    );
    // Without the fd2 layer, characters outside Base64 are skipped.
    let plain_layer = b64(&bf_encrypt(&nibbles(b"pub1isher1l0O"), &pkcs7(b"abc")));
    let noisy = format!(" {}\n", plain_layer);
    assert_eq!(KK::fd1(&noisy, "pub1isher1l0O", false).unwrap(), "abc");
}

#[test]
fn blowfish_ecb_errors() {
    assert_eq!(
        KK::blowfish_ecb_decrypt(&[0u8; 8], &[]),
        Err(CryptoError::InvalidKey("empty Blowfish key"))
    );
    assert_eq!(KK::blowfish_ecb_decrypt(&[0u8; 7], b"abcd"), Err(CryptoError::BadCiphertextLen(7)));
    assert_eq!(KK::blowfish_ecb_decrypt(&[], b"abcd"), Ok(vec![]));
    assert_eq!(KK::blowfish_ecb_decrypt(&[0u8; 8], b"abc"), Err(CryptoError::KeyInit));
    let c = bf_encrypt(b"abcd", &[1, 2, 3, 4, 5, 6, 7, 9]);
    assert_eq!(KK::blowfish_ecb_decrypt(&c, b"abcd"), Err(CryptoError::InvalidPadding(9)));
}

#[test]
fn unpad_checks_every_padding_byte() {
    assert_eq!(unpad(vec![1, 2, 3, 3, 3], 8), Ok(vec![1, 2]));
    assert_eq!(unpad(vec![1, 2, 3, 2, 3], 8), Err(CryptoError::InvalidPadding(3)));
    assert_eq!(unpad(vec![1, 0], 2), Err(CryptoError::InvalidPadding(0)));
}

#[test]
fn kry_decrypt_short_payload() {
    let mut bytes = vec![100u8, 101, 102, 103, 104];
    KrySWFCrypto::decrypt(&mut bytes, &default_kry_code()).unwrap();
    assert_eq!(bytes, vec![31, 43, 52, 61, 60]);
}

#[test]
fn kry_decrypt_keeps_length() {
    let mut bytes: Vec<u8> = (0..12000u32).map(|i| (i * 7 % 251) as u8).collect();
    let before = bytes.clone();
    KrySWFCrypto::decrypt(&mut bytes, &KryCode { f1: 5, f2: 6, f3: 7 }).unwrap();
    assert_eq!(bytes.len(), before.len());
    assert_ne!(bytes, before);
}

#[test]
fn separate_bytes_reverses_a_range() {
    let mut bytes = vec![10u8, 20, 30, 40, 50];
    KrySWFCrypto::separate_bytes(&mut bytes, 1, 1, 1, 1);
    // Range 1..4 reversed, 2 subtracted from each byte.
    assert_eq!(bytes, vec![10, 38, 28, 18, 50]);
}

#[test]
fn kry_code_parsing() {
    assert_eq!(parse_kry_code("33x20x10", 0), Ok(KryCode { f1: 33, f2: 20, f3: 10 }));
    assert_eq!(parse_kry_code(" 1 _ 2 _ -3 ", 6), Ok(KryCode { f1: 7, f2: 8, f3: 3 }));
    assert_eq!(parse_kry_code("1x2", 0), Err(CryptoError::InvalidFernusCode));
    assert_eq!(parse_kry_code("1-2-3", 0), Err(CryptoError::InvalidFernusCode));
    assert_eq!(parse_kry_code("1xax3", 0), Err(CryptoError::InvalidFernusCode));
    assert_eq!(parse_kry_code_checked("2147483647x0x0", 1), None);
    assert_eq!(parse_kry_code_checked("1x2x3", 1), Some(Ok(KryCode { f1: 2, f2: 3, f3: 4 })));
}

/// The `KKDecryptor` encoding of `plain` under `key`.
fn kkd_encode(plain: &str, key: &str) -> String {
    let t = b64(&bf_encrypt(key.as_bytes(), &pkcs7(plain.as_bytes())));
    b64(&xor(t.as_bytes(), key.as_bytes())).chars().rev().collect()
}

#[test]
fn kk_decryptor_round_trip() {
    let enc = kkd_encode("secret publisher", DECRYPT_KEY);
    let d = KKDecryptor;
    assert_eq!(d.decrypt(&enc, DECRYPT_KEY).unwrap(), "secret publisher");
    assert_eq!(d.decrypt("%%", DECRYPT_KEY), Err(CryptoError::Base64 { context: "fd2 base64" }));
    let short_key: String = b64(&xor(b64(b"12345678").as_bytes(), b"abc")).chars().rev().collect();
    assert_eq!(d.decrypt(&short_key, "abc"), Err(CryptoError::KeyInit));
    // An empty ciphertext, a ragged one, a bad padding and an empty key
    // are errors.
    let fd2_layer = |t: &str, key: &[u8]| -> String { b64(&xor(t.as_bytes(), key)).chars().rev().collect() };
    assert_eq!(d.decrypt(&fd2_layer("", b"key1"), "key1"), Err(CryptoError::BadCiphertextLen(0)));
    assert_eq!(d.decrypt(&fd2_layer(&b64(&[1, 2, 3]), b"key1"), "key1"), Err(CryptoError::BadCiphertextLen(3)));
    let bad_pad = b64(&bf_encrypt(b"key1", &[1, 2, 3, 4, 5, 6, 7, 9]));
    assert_eq!(d.decrypt(&fd2_layer(&bad_pad, b"key1"), "key1"), Err(CryptoError::InvalidPadding(9)));
    assert_eq!(d.decrypt(&b64(b"abc").chars().rev().collect::<String>(), ""), Err(CryptoError::InvalidKey("empty XOR key")));
    assert_eq!(d.apply_xor(&[1, 2, 3], "a"), vec![1 ^ b'a', 2 ^ b'a', 3 ^ b'a']);
}

#[test]
fn read_u30_of_a_method_body() {
    let bytes = [0x85, 0x01];
    let mut pc = 0usize;
    assert_eq!(read_u30(&bytes, &mut pc), Some(0x85));
    assert_eq!(pc, 2);
    let mut pc = 1usize;
    assert_eq!(read_u30(&[0xff, 0x7f, 0x00], &mut pc), Some(0x7f));
    assert_eq!(pc, 2);
    // Cut off by the end of the code.
    let mut pc = 0usize;
    assert_eq!(read_u30(&[0x80, 0x80], &mut pc), None);
    // Bits beyond the width of a usize are dropped.
    let mut long = vec![0xffu8; 12];
    long.push(0x00);
    let mut pc = 0usize;
    assert_eq!(read_u30(&long, &mut pc), Some(usize::MAX));
    assert_eq!(pc, 13);
}

#[test]
fn method_body_search() {
    // 41 bytes of text pad to six blocks, whose encoding ends in `==`:
    // reversed, the hidden string starts with the `==` marker.
    let plain = "pub1isher-key-of-this-book-0123456789abcd";
    assert_eq!(plain.len(), 41);
    let enc = kkd_encode(plain, DECRYPT_KEY);
    assert!(enc.starts_with("=="));
    let abc = AbcModel {
        strings: vec![b"plain".to_vec(), enc.clone().into_bytes(), b"==other".to_vec()],
        codes: vec![],
    };
    // pushstring 0 (no marker), an unrelated opcode, pushstring 9 (outside
    // the pool), then pushstring 1.
    let code = [44u8, 0, 0x30, 44, 9, 44, 1];
    assert_eq!(scan_method_body(&abc, &code), Ok(Some(plain.to_string())));
    assert_eq!(scan_method_body(&abc, &[0x30, 0x31]), Ok(None));
    assert_eq!(scan_method_body(&abc, &[44, 0]), Ok(None));
    // `==other` does not decode.
    assert_eq!(
        scan_method_body(&abc, &[44, 2]),
        Err(CryptoError::Base64 { context: "fd2 base64" })
    );
    // A pushstring whose index runs past the end of the code.
    assert_eq!(scan_method_body(&abc, &[44, 0x80]), Ok(None));
    assert_eq!(scan_method_body(&abc, &[44]), Ok(None));
}

#[test]
fn publisher_file_round_trip() {
    let key = "pub1isher1l0O";
    let plain = b"{\"fernusCode\":\"1x2x3\"}";
    // The decryptor unpads by the last byte only.
    let padded = pkcs7(plain);
    let c = bf_encrypt(key.as_bytes(), &padded);
    let x = xor(&c, key.as_bytes());
    let input: String = b64(&x).chars().rev().collect();
    assert_eq!(decrypt_publisher(input.clone().into_bytes(), key), "{\"fernusCode\":\"1x2x3\"}");
    assert_eq!(decrypt_publisher_checked(vec![0xff, 0xfe], key), None);
    assert_eq!(decrypt_publisher_checked(input.into_bytes(), "abc"), None);
}
