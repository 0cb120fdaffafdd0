use aes::cipher::{Array, BlockCipherEncrypt, KeyInit};
use base64::Engine;

use zkitap::enigma::ExtractedFile;
use zkitap::pipeline::{collect_v3_webp, prepare_v3_keys, V3BookError};
use zkitap::v3::{
    aes_cbc_decrypt, create_key, decrypt_bytes, decrypt_string, extract_iv, extract_keystr,
    parse_envied_array, V3Error,
};

const KEYSTR: &str = "abcdefghijklmnopqrstuvwxyz012345";
const IV: &str = "0123456789abcdef";

fn cbc_encrypt(key: &[u8], iv: &[u8], plain: &[u8]) -> Vec<u8> {
    let n = 16 - plain.len() % 16;
    let mut data = plain.to_vec();
    data.extend(std::iter::repeat(n as u8).take(n));
    let cipher = <aes::Aes256 as KeyInit>::new_from_slice(key).unwrap();
    let mut prev = iv.to_vec();
    let mut out = Vec::new();
    for chunk in data.chunks(16) {
        let mut block: Vec<u8> = chunk.iter().zip(prev.iter()).map(|(a, b)| a ^ b).collect();
        let (blocks, _) = Array::slice_as_chunks_mut(&mut block);
        cipher.encrypt_blocks(blocks);
        out.extend_from_slice(&block);
        prev = block;
    }
    out
}

/// The text `decrypt_string` turns back into `plain`.
fn encrypt_string(key: &[u8], plain: &str) -> String {
    let b64 = base64::engine::general_purpose::STANDARD.encode(cbc_encrypt(key, IV.as_bytes(), plain.as_bytes()));
    b64.trim_end_matches('=').chars().rev().collect()
}

fn kernel() -> Vec<u8> {
    let key: Vec<i64> = (1..=KEYSTR.len() as i64).collect();
    let data: Vec<i64> = KEYSTR.bytes().zip(key.iter()).map(|(c, k)| (c as i64) ^ k).collect();
    let list = |v: &Vec<i64>| v.iter().map(|x| x.to_string()).collect::<Vec<_>>().join(", ");
    format!(
        "junk _envieddata_keyStr = <int>[{}] more _enviedkey_keyStr = <int>[{}] \
         static final iv = IV.fromUtf8('{}'); end",
        list(&data),
        list(&key),
        IV
    )
    .into_bytes()
}

fn file(path: &str, data: Vec<u8>) -> ExtractedFile {
    ExtractedFile { path: path.to_string(), data }
}

fn webp(tag: u8) -> Vec<u8> {
    let mut v = b"RIFF\x10\0\0\0WEBPVP8 ".to_vec();
    v.push(tag);
    v
}

#[test]
fn test_create_key_short_and_long() {
    assert_eq!(create_key("0123456789012345678901234567890123456789", "xyz").len(), 32);
    assert_eq!(create_key("ab", "c"), b"abc".to_vec());
}

#[test]
fn kernel_keys() {
    let k = kernel();
    assert_eq!(extract_keystr(&k).unwrap(), KEYSTR);
    assert_eq!(extract_iv(&k).unwrap(), IV);
    assert_eq!(parse_envied_array(b"_enviedkey_keyStr = <int>[ 1, ,2 ,-3]", "key").unwrap(), vec![1, 2, -3]);
    assert_eq!(parse_envied_array(b"nothing", "key"), Err(V3Error::ArrayNotFound("_enviedkey_keyStr".to_string())));
    assert_eq!(
        parse_envied_array(b"x _envieddata_keyStr = <int>[1, -2,,3 ,]", "data"),
        Ok(vec![1, -2, 3])
    );
    assert_eq!(parse_envied_array(b"_enviedkey_keyStr = <int>[1, 2", "key"), Err(V3Error::ArrayUnterminated));
    assert_eq!(parse_envied_array(b"_enviedkey_keyStr = <int>[1, x]", "key"), Err(V3Error::BadInt));
    assert_eq!(extract_iv(b"no iv here"), Err(V3Error::IvNotFound));
    assert_eq!(extract_iv(b"final iv = IV.fromUtf8('qwertyuiopasdfgh')").unwrap(), "qwertyuiopasdfgh");
}

#[test]
fn aes_cbc_round_trip_and_errors() {
    let key = KEYSTR.as_bytes();
    let iv = IV.as_bytes();
    let c = cbc_encrypt(key, iv, b"page bytes here, more than one block");
    assert_eq!(decrypt_bytes(&c, key, iv).unwrap(), b"page bytes here, more than one block".to_vec());
    let p = decrypt_bytes(&c, key, iv).unwrap();
    assert!(c.len() - 16 <= p.len() && p.len() < c.len());
    assert_eq!(aes_cbc_decrypt(&c, &key[..31], iv), Err(V3Error::AesKeyLen(31)));
    assert_eq!(aes_cbc_decrypt(&c, key, &iv[..8]), Err(V3Error::AesIvLen(8)));
    assert_eq!(aes_cbc_decrypt(&c[..20], key, iv), Err(V3Error::AesBlockLen(20)));
    assert_eq!(aes_cbc_decrypt(&[], key, iv), Ok(vec![]));
    let mut bad = c.clone();
    let last = bad.len() - 17;
    bad[last] ^= 0x55;
    assert_eq!(aes_cbc_decrypt(&bad, key, iv), Err(V3Error::InvalidPkcs7));
    let s = encrypt_string(key, "{\"fernusCode\":\"x\"}");
    assert_eq!(decrypt_string(&s, key, iv).unwrap(), b"{\"fernusCode\":\"x\"}".to_vec());
}

fn book_files() -> (Vec<ExtractedFile>, Vec<u8>) {
    let keystr = KEYSTR.as_bytes();
    let fernus_code = "7_14_22";
    let book_key = create_key(fernus_code, KEYSTR);
    let publisher = format!("{{\"fernusCode\":\"{}\",\"x\":1}}", encrypt_string(keystr, fernus_code));
    let files = vec![
        file("data/flutter_assets/kernel_blob.bin", kernel()),
        file("publisher\\publisher.json", format!("  {}\n", encrypt_string(keystr, &publisher)).into_bytes()),
        file("publisher/book/book.json", encrypt_string(&book_key, "{\"bookName\":\"B\",\"totalPage\":2}").into_bytes()),
        file("publisher/book/p-2.webp", cbc_encrypt(&book_key, IV.as_bytes(), &webp(2))),
        file("publisher/book/P-1.WEBP", webp(1)),
        file("publisher/book/p-l-1.webp", webp(9)),
        file("publisher/book/t-1.webp", webp(7)),
        file("publisher/book/p-x.webp", webp(8)),
        file("publisher/book/p-3.webp", b"not an image".to_vec()),
        file("publisher/book/notes.txt", webp(6)),
    ];
    (files, book_key)
}

#[test]
fn v3_keys_from_the_book() {
    let (files, book_key) = book_files();
    let (key, iv) = prepare_v3_keys(&files).unwrap();
    assert_eq!(key, book_key);
    assert_eq!(key.len(), 32);
    assert_eq!(&key[..7], b"7_14_22");
    assert_eq!(iv, IV.as_bytes().to_vec());
}

#[test]
fn v3_key_errors() {
    assert_eq!(prepare_v3_keys(&[]), Err(V3BookError::KernelMissing));
    let only_kernel = vec![file("data/flutter_assets/kernel_blob.bin", kernel())];
    assert_eq!(prepare_v3_keys(&only_kernel), Err(V3BookError::PublisherMissing));
    let no_keys = vec![file("data/flutter_assets/kernel_blob.bin", b"empty".to_vec())];
    assert_eq!(prepare_v3_keys(&no_keys), Err(V3BookError::Keystr));
    let (mut files, _) = book_files();
    files.retain(|f| f.path != "publisher/book/book.json");
    assert_eq!(prepare_v3_keys(&files), Err(V3BookError::BookMissing));
    let bad_pub = vec![
        file("data/flutter_assets/kernel_blob.bin", kernel()),
        file("publisher/publisher.json", encrypt_string(KEYSTR.as_bytes(), "{\"other\":1}").into_bytes()),
    ];
    assert_eq!(prepare_v3_keys(&bad_pub), Err(V3BookError::FernusCodeMissing));
    let not_json = vec![
        file("data/flutter_assets/kernel_blob.bin", kernel()),
        file("publisher/publisher.json", encrypt_string(KEYSTR.as_bytes(), "not json").into_bytes()),
    ];
    assert_eq!(prepare_v3_keys(&not_json), Err(V3BookError::Json("publisher.json")));
    let garbage = vec![
        file("data/flutter_assets/kernel_blob.bin", kernel()),
        file("publisher/publisher.json", b"!!!!".to_vec()),
    ];
    assert_eq!(prepare_v3_keys(&garbage), Err(V3BookError::Decrypt("publisher.json")));
}

#[test]
fn v3_pages_sorted_with_layers() {
    let (files, book_key) = book_files();
    let assets = collect_v3_webp(&files, &book_key, IV.as_bytes());
    let numbers: Vec<usize> = assets.pages.iter().map(|(n, _)| *n).collect();
    assert_eq!(numbers, vec![1, 2]);
    assert_eq!(assets.pages[0].1, webp(1));
    assert_eq!(assets.pages[1].1, webp(2));
    assert_eq!(assets.layers.len(), 1);
    assert_eq!(assets.layers.get(&1), Some(&webp(9)));
}
