use base64::Engine;
use blowfish::cipher::{Array, BlockCipherEncrypt, KeyInit};

use zkitap::assets::{decrypt_pages, decrypt_sysd, PublisherConfig};
use zkitap::frns::{book_json_text, decompress_flash_lzma, decrypt_frames, FrnsError, FrnsFrame};
use zkitap::kk::DEFAULT_PUBLISHER_KEY;
use zkitap::kry::{default_kry_code, KryCode};
use zkitap::pipeline::{
    decrypt_config, decrypt_dll_payload, extract_kry_code_from_xml, is_payload_file,
    parse_page_num_suffix, payload_kind, resolve_kry_code, should_stop, sysb_first,
    try_decrypt_fd1, try_decrypt_kry, xml_tag, ConfigProbe, PayloadKind,
};
use zkitap::pipeline::{extract_kry_code_from_xml_checked, resolve_kry_code_checked};
use zkitap::payloads::PayloadStore;
use zkitap::swf::SwfError;

fn b64(data: &[u8]) -> String {
    base64::engine::general_purpose::STANDARD.encode(data)
}

fn xor(data: &[u8], key: &[u8]) -> Vec<u8> {
    data.iter().enumerate().map(|(i, b)| b ^ key[i % key.len()]).collect()
}

fn fd1_encode(plain: &str, key: &str) -> String {
    let nib: Vec<u8> = key.bytes().flat_map(|b| [b >> 4, b & 0x0f]).collect();
    let mut data = plain.as_bytes().to_vec();
    let n = 8 - data.len() % 8;
    data.extend(std::iter::repeat(n as u8).take(n));
    let c = <blowfish::Blowfish as KeyInit>::new_from_slice(&nib).unwrap();
    let (blocks, _) = Array::slice_as_chunks_mut(&mut data);
    c.encrypt_blocks(blocks);
    b64(&xor(b64(&data).as_bytes(), key.as_bytes())).chars().rev().collect()
}

fn flash_lzma(data: &[u8]) -> Vec<u8> {
    let mut out = Vec::new();
    let opts = lzma_rs::compress::Options {
        unpacked_size: lzma_rs::compress::UnpackedSize::WriteToHeader(Some(data.len() as u64)),
    };
    lzma_rs::lzma_compress_with_options(&mut &data[..], &mut out, &opts).unwrap();
    out
}

/// Bytes that the SWF cipher (default code) turns into `plain` (at most
/// nine bytes, so that only the first range and the first three
/// corrections apply).
fn kry_encrypt_short(plain: &[u8]) -> Vec<u8> {
    let mut d = plain.to_vec();
    d[0] = d[0].wrapping_add(33);
    d[1] = d[1].wrapping_add(20);
    d[2] = d[2].wrapping_add(10);
    d.iter().rev().map(|b| b.wrapping_add(40)).collect()
}

#[test]
fn flash_lzma_book() {
    let json = "{\"totalFrames\":1,\"frames\":[]}";
    let packed = flash_lzma(json.as_bytes());
    assert_eq!(decompress_flash_lzma(&packed).unwrap(), json.as_bytes().to_vec());
    assert_eq!(book_json_text(&packed).unwrap(), json);
    assert_eq!(decompress_flash_lzma(&[0x5d, 0, 0]), Err(FrnsError::LzmaTooShort { got: 3, min: 13 }));
    let mut broken = packed.clone();
    broken.truncate(14);
    assert_eq!(decompress_flash_lzma(&broken), Err(FrnsError::Lzma { context: "decompress" }));
}

fn frame(n: u32, data: String) -> FrnsFrame {
    FrnsFrame { frame: n, data }
}

#[test]
fn frame_decryption() {
    // Payload bytes [100..=104] decrypt (default code) to [31, 43, 52, 61, 60];
    // their Base64 is `ZGVmZ2g=`, whose first part is XOR-encoded with `63`.
    let part0 = b64(&xor(b"ZGVm", b"63"));
    let data = format!("{}+/=Z2g=", part0);
    let code = default_kry_code();
    assert_eq!(frame(1, data.clone()).decrypt(&code).unwrap(), vec![31, 43, 52, 61, 60]);
    assert_eq!(
        frame(4, "no separator".to_string()).decrypt(&code),
        Err(FrnsError::Frame { frame: 4, message: "frame data missing '+/=' separator" })
    );
    assert_eq!(frame(1, "!!+/=AAAA".to_string()).decrypt(&code), Err(FrnsError::Base64 { context: "xor_decode" }));
    let not_text = b64(&xor(&[0xff, 0xfe], b"63"));
    assert_eq!(frame(1, format!("{}+/=AAAA", not_text)).decrypt(&code), Err(FrnsError::Utf8));
    let frames = vec![frame(1, data.clone()), frame(2, data)];
    assert_eq!(decrypt_frames(&frames, &code).unwrap(), vec![vec![31, 43, 52, 61, 60]; 2]);
    let with_bad = vec![frames[0].clone(), frame(7, "x".to_string()), frames[1].clone()];
    assert_eq!(
        decrypt_frames(&with_bad, &code),
        Err(FrnsError::Frame { frame: 7, message: "frame data missing '+/=' separator" })
    );
}

#[test]
fn xml_configuration() {
    let xml = "<cfg><pkxkname>abc</pkxkname><fernusCode>1x2x3</fernusCode></cfg>";
    assert_eq!(xml_tag(xml, "pkxkname"), Some("abc".to_string()));
    assert_eq!(xml_tag(xml, "missing"), None);
    assert_eq!(xml_tag("<a>open only", "a"), None);
    assert_eq!(extract_kry_code_from_xml(xml), Some(KryCode { f1: 4, f2: 5, f3: 6 }));
    assert_eq!(
        extract_kry_code_from_xml("<fernusCode>1_2_3</fernusCode>"),
        Some(KryCode { f1: 7, f2: 8, f3: 9 })
    );
    assert_eq!(extract_kry_code_from_xml("<fernusCode>bad</fernusCode>"), None);
    assert_eq!(extract_kry_code_from_xml("<x/>"), None);
}

#[test]
fn page_numbers() {
    assert_eq!(parse_page_num_suffix("1"), Some(1));
    assert_eq!(parse_page_num_suffix("001.webp"), Some(1));
    assert_eq!(parse_page_num_suffix("12.webp.webp"), Some(12));
    assert_eq!(parse_page_num_suffix("page7"), Some(7));
    assert_eq!(parse_page_num_suffix("abc"), None);
    assert_eq!(parse_page_num_suffix(""), None);
    assert_eq!(parse_page_num_suffix("99999999999999999999999"), None);
}

#[test]
fn payload_names() {
    assert_eq!(payload_kind("p.dll"), PayloadKind::Config);
    assert_eq!(payload_kind("sysd.frns"), PayloadKind::Config);
    assert_eq!(payload_kind("sysm2.dll"), PayloadKind::Config);
    assert_eq!(payload_kind("publisher.kxk"), PayloadKind::Config);
    assert_eq!(payload_kind("sysb.frns"), PayloadKind::Frns);
    assert_eq!(payload_kind("sysb.dll"), PayloadKind::Dll);
    assert!(is_payload_file("a.dll"));
    assert!(is_payload_file("a.frns"));
    assert!(is_payload_file("publisher.kxk"));
    assert!(!is_payload_file("a.exe"));
    let names: Vec<String> = ["m1.dll", "sysb.dll", "x", "sysb2.frns"].iter().map(|s| s.to_string()).collect();
    assert_eq!(sysb_first(&names), vec![1, 3, 0, 2]);
}

#[test]
fn watcher_stops() {
    assert!(!should_stop(false, 100_000, 60_000));
    assert!(should_stop(true, 30_000, 1));
    assert!(!should_stop(true, 29_999, 1));
    assert!(should_stop(false, 0, 120_000));
}

#[test]
fn legacy_payloads() {
    let mut plain = b"FWS".to_vec();
    plain.extend_from_slice(&[10, 9, 0, 0, 0, 42]);
    let enc = kry_encrypt_short(&plain);
    let code = default_kry_code();
    assert_eq!(try_decrypt_kry(&enc, &code), Some(plain.clone()));
    assert_eq!(try_decrypt_kry(&[], &code), None);
    assert_eq!(decrypt_dll_payload(&enc, &code), Some(plain.clone()));
    // The same SWF sent as fd1 text (the SWF cipher fails on it).
    let text = fd1_encode("FWS\u{a}12345", DEFAULT_PUBLISHER_KEY);
    let wrapped = format!("\n {} \n", text);
    assert_eq!(try_decrypt_fd1(wrapped.as_bytes(), DEFAULT_PUBLISHER_KEY), Some(b"FWS\n12345".to_vec()));
    assert_eq!(decrypt_dll_payload(wrapped.as_bytes(), &code), Some(b"FWS\n12345".to_vec()));
    assert_eq!(decrypt_dll_payload(b"garbage!", &code), None);
    assert_eq!(decrypt_pages(enc.clone(), &code), Ok(plain));
    assert_eq!(decrypt_pages(vec![1, 2], &code), Err(SwfError::TooShort(2)));
}

#[test]
fn kry_code_resolution() {
    let xml = "<fernusCode>1x2x3</fernusCode>";
    let enc = fd1_encode(xml, DEFAULT_PUBLISHER_KEY);
    let decrypted = decrypt_config(enc.as_bytes());
    assert_eq!(decrypted.as_deref(), Some(xml));
    assert_eq!(decrypt_config(b"@@"), None);
    assert_eq!(decrypt_sysd(&format!(" {} ", enc), DEFAULT_PUBLISHER_KEY).unwrap(), xml);

    let json_cfg = PublisherConfig { pkxkname: Some("ab".to_string()), fernus_code: Some("10x20x30".to_string()) };
    assert_eq!(json_cfg.kry_code(), KryCode { f1: 12, f2: 22, f3: 32 });
    let fallback = PublisherConfig { pkxkname: None, fernus_code: Some("oops".to_string()) };
    assert_eq!(fallback.kry_code(), default_kry_code());
    let no_code = PublisherConfig { pkxkname: None, fernus_code: None };
    assert_eq!(no_code.kry_code(), default_kry_code());
    let fernus = PublisherConfig { pkxkname: None, fernus_code: Some("0x0x0".to_string()) };
    assert_eq!(fernus.kry_code(), KryCode { f1: 6, f2: 6, f3: 6 });

    let probes = vec![
        ConfigProbe { decrypted: None, config: None },
        ConfigProbe { decrypted: Some("not xml".to_string()), config: None },
        ConfigProbe { decrypted: decrypted.clone(), config: None },
        ConfigProbe { decrypted: Some("{}".to_string()), config: Some(json_cfg.clone()) },
    ];
    assert_eq!(resolve_kry_code(&probes), KryCode { f1: 7, f2: 8, f3: 9 });
    assert_eq!(resolve_kry_code(&probes[3..].to_vec()), KryCode { f1: 12, f2: 22, f3: 32 });
    assert_eq!(resolve_kry_code(&probes[..2].to_vec()), default_kry_code());
    assert_eq!(resolve_kry_code(&vec![]), KryCode { f1: 33, f2: 20, f3: 10 });
}

#[test]
fn checked_code_readers() {
    assert_eq!(
        extract_kry_code_from_xml_checked("<fernusCode>2147483647x0x0</fernusCode>"),
        None
    );
    assert_eq!(extract_kry_code_from_xml_checked("<x/>"), Some(None));
    assert_eq!(
        extract_kry_code_from_xml_checked("<fernusCode>1x1x1</fernusCode><pkxkname></pkxkname>"),
        Some(Some(KryCode { f1: 1, f2: 1, f3: 1 }))
    );
    let big = PublisherConfig { pkxkname: Some("ab".to_string()), fernus_code: Some("2147483647x1x1".to_string()) };
    assert_eq!(big.kry_code_checked(), None);
    let probes = vec![ConfigProbe { decrypted: Some("{}".to_string()), config: Some(big) }];
    assert_eq!(resolve_kry_code_checked(&probes), None);
    let ok = vec![ConfigProbe { decrypted: Some("<fernusCode>5x5x5</fernusCode>".to_string()), config: None }];
    assert_eq!(resolve_kry_code_checked(&ok), Some(KryCode { f1: 11, f2: 11, f3: 11 }));
}

#[test]
fn payload_store_reads_back_last_write() {
    let mut store = PayloadStore::new();
    assert!(store.is_empty());
    store.insert("sysb.dll".to_string(), vec![1, 2]);
    store.insert("sysd.dll".to_string(), vec![3]);
    store.insert("sysb.dll".to_string(), vec![4, 5, 6]);
    assert_eq!(store.len(), 2);
    assert_eq!(store.get("sysb.dll"), Some(&vec![4, 5, 6]));
    assert_eq!(store.get("sysd.dll"), Some(&vec![3]));
    assert_eq!(store.get("sysm.dll"), None);
    let (name, data) = store.entry(0);
    assert_eq!((name.as_str(), data.as_slice()), ("sysb.dll", &[4u8, 5, 6][..]));
}
