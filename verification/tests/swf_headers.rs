use std::io::Write;

use zkitap::scanner::{
    extract_publisher_key, extract_publisher_key_checked,
    extract_abc_strings, extract_abc_strings_checked, extract_strings_from_fws,
    extract_strings_from_fws_checked, find_abc_string_containing, is_upx_packed,
    parse_abc_string_pool, ExeScanner,
};
use zkitap::swf::{classify_swf, read_frame_count, to_fws, SwfError};

fn zlib(data: &[u8]) -> Vec<u8> {
    let mut enc = flate2::write::ZlibEncoder::new(Vec::new(), flate2::Compression::default());
    enc.write_all(data).unwrap();
    enc.finish().unwrap()
}

/// An uncompressed SWF header (version 10) whose stage rectangle uses 5
/// bits per field, followed by the frame rate and `frames`.
fn fws_header(total_len: u32, frames: u16) -> Vec<u8> {
    let mut v = b"FWS".to_vec();
    v.push(10);
    v.extend_from_slice(&total_len.to_le_bytes());
    v.extend_from_slice(&[5 << 3, 0, 0, 0]); // rectangle: nbits = 5, 4 bytes
    v.extend_from_slice(&[0, 24]); // frame rate
    v.extend_from_slice(&frames.to_le_bytes());
    v
}

/// An ABC block whose string pool holds `strings`.
fn abc_block(strings: &[&str]) -> Vec<u8> {
    let mut v = vec![16, 0, 46, 0, 0, 0, 0];
    v.push((strings.len() + 1) as u8);
    for s in strings {
        v.push(s.len() as u8);
        v.extend_from_slice(s.as_bytes());
    }
    v
}

/// A `DoABC2` tag holding an ABC block: 4 flag bytes, a name, the block.
fn doabc2_tag(abc: &[u8]) -> Vec<u8> {
    let mut body = vec![1, 0, 0, 0, b'x', 0];
    body.extend_from_slice(abc);
    let mut v = Vec::new();
    let raw: u16 = (82 << 6) | 0x3F;
    v.extend_from_slice(&raw.to_le_bytes());
    v.extend_from_slice(&(body.len() as u32).to_le_bytes());
    v.extend_from_slice(&body);
    v
}

#[test]
fn rejects_short_input() {
    let err = to_fws(b"FW").unwrap_err();
    assert!(err.message().contains("too short"));
}

#[test]
fn rejects_zws() {
    let mut data = vec![0u8; 32];
    data[0..3].copy_from_slice(b"ZWS");
    let err = to_fws(&data).unwrap_err();
    assert!(err.message().contains("ZWS"));
}

#[test]
fn to_fws_keeps_fws() {
    let data = fws_header(16, 3);
    assert_eq!(to_fws(&data).unwrap(), data);
}

#[test]
fn to_fws_inflates_cws() {
    let body = vec![7u8, 8, 9, 10, 11];
    let mut cws = b"CWS".to_vec();
    cws.push(9);
    cws.extend_from_slice(&13u32.to_le_bytes());
    cws.extend_from_slice(&zlib(&body));
    let out = to_fws(&cws).unwrap();
    let mut expected = b"FWS".to_vec();
    expected.push(9);
    expected.extend_from_slice(&13u32.to_le_bytes());
    expected.extend_from_slice(&body);
    assert_eq!(out, expected);
    // Normalising the result again changes nothing.
    assert_eq!(to_fws(&out).unwrap(), out);
}

#[test]
fn to_fws_errors() {
    let mut bad = b"cws".to_vec();
    bad.extend_from_slice(&[9, 0, 0, 0, 0, 1, 2, 3]);
    assert_eq!(to_fws(&bad), Err(SwfError::Zlib));
    assert_eq!(to_fws(b"abc12345"), Err(SwfError::BadSignature("abc".to_string())));
    assert_eq!(to_fws(b"FW"), Err(SwfError::TooShort(2)));
    assert_eq!(SwfError::TooShort(2).message(), "SWF too short: 2 bytes");
    assert_eq!(SwfError::UnsupportedZws.message(), "ZWS (LZMA) SWF is not supported");
    assert_eq!(SwfError::Zlib.message(), "zlib inflate failed");
    assert_eq!(SwfError::BadSignature("abc".to_string()).message(), "not a SWF signature: \"abc\"");
}

#[test]
fn frame_count_and_classification() {
    assert_eq!(read_frame_count(&fws_header(16, 1234)), 1234);
    assert_eq!(read_frame_count(b"FWS"), 0);
    let mut odd = fws_header(16, 5);
    odd[8] = 2 << 3; // nbits outside 4..=19
    assert_eq!(read_frame_count(&odd), 0);
    assert_eq!(classify_swf(1001, 10), "page");
    assert_eq!(classify_swf(500, 150_001), "loader");
    assert_eq!(classify_swf(500, 150_000), "page");
    assert_eq!(classify_swf(100, 1_000_000), "ui");
}

#[test]
fn abc_string_pool() {
    let abc = abc_block(&["hi", "abc"]);
    assert_eq!(parse_abc_string_pool(&abc), Some(vec!["hi".to_string(), "abc".to_string()]));
    // Empty pool.
    assert_eq!(parse_abc_string_pool(&[16, 0, 46, 0, 0, 0, 0, 0]), Some(vec![]));
    // Too short, and a string running past the end.
    assert_eq!(parse_abc_string_pool(&[1, 2, 3]), None);
    assert_eq!(parse_abc_string_pool(&[16, 0, 46, 0, 0, 0, 0, 2, 9, b'a']), None);
    // A count byte with the continuation bit set reads two bytes.
    assert_eq!(parse_abc_string_pool(&[16, 0, 46, 0, 0x80, 0x00, 0, 0, 0]), Some(vec![]));
}

#[test]
fn strings_of_a_swf() {
    let mut swf = fws_header(0, 1);
    swf.extend_from_slice(&doabc2_tag(&abc_block(&["PUBLISHER_KEY", "pub1isher1l0O"])));
    swf.extend_from_slice(&[0, 0]);
    assert_eq!(
        extract_strings_from_fws(&swf),
        vec!["PUBLISHER_KEY".to_string(), "pub1isher1l0O".to_string()]
    );
    assert_eq!(extract_strings_from_fws(b"FWS"), Vec::<String>::new());
    // Exactly eight bytes: the walk would read past the end.
    assert_eq!(extract_strings_from_fws_checked(b"FWS\x0a\x00\x00\x00\x00"), None);
    assert!(extract_strings_from_fws_checked(&swf).is_some());
}

fn exe_with_swf() -> (Vec<u8>, Vec<u8>) {
    exe_with_strings(&["Alpha", "pub1isher1l0O", "Alpha"], &["beta", "Alpha"])
}

fn exe_with_strings(first: &[&str], second: &[&str]) -> (Vec<u8>, Vec<u8>) {
    let mut swf = fws_header(0, 2);
    swf.extend_from_slice(&doabc2_tag(&abc_block(first)));
    swf.extend_from_slice(&doabc2_tag(&abc_block(second)));
    swf.extend_from_slice(&[0, 0]);
    while swf.len() < 120 {
        swf.push(0);
    }
    let len = swf.len() as u32;
    swf[4..8].copy_from_slice(&len.to_le_bytes());
    let mut exe = b"MZ-not-really-a-program".to_vec();
    exe.extend_from_slice(&swf);
    exe.extend_from_slice(b"trailing bytes after the movie");
    (exe, swf)
}

#[test]
fn scan_finds_embedded_swf() {
    let (exe, swf) = exe_with_swf();
    let scanner = ExeScanner::from_bytes(exe.clone());
    let found = scanner.scan_swfs().unwrap();
    assert_eq!(found.len(), 1);
    assert_eq!(found[0].offset, 23);
    assert_eq!(found[0].signature, "FWS");
    assert_eq!(found[0].version, 10);
    assert_eq!(found[0].declared_length, swf.len() as u32);
    assert_eq!(found[0].frame_count, 2);
    assert_eq!(found[0].classification, "ui");
    assert_eq!(found[0].raw_bytes, swf);
    assert_eq!(scanner.scan_swfs_checked().unwrap().len(), 1);
}

#[test]
fn scan_refuses_header_at_the_very_end() {
    // A plausible header in the last eight bytes: reading the rectangle
    // byte would go past the end.
    let mut exe = vec![0u8; 4];
    exe.extend_from_slice(b"FWS");
    exe.push(10);
    exe.extend_from_slice(&200u32.to_le_bytes());
    assert!(ExeScanner::from_bytes(exe).scan_swfs_checked().is_none());
    assert_eq!(ExeScanner::from_bytes(vec![1, 2, 3]).scan_swfs().unwrap().len(), 0);
}

#[test]
fn abc_strings_of_an_exe_are_distinct() {
    let (exe, _) = exe_with_swf();
    let strings = extract_abc_strings(&exe).unwrap();
    assert_eq!(
        strings,
        vec!["Alpha".to_string(), "pub1isher1l0O".to_string(), "beta".to_string()]
    );
    assert_eq!(extract_abc_strings_checked(&exe), Some(strings));
    assert_eq!(
        find_abc_string_containing(&exe, "PUB1ISHER").unwrap(),
        Some("pub1isher1l0O".to_string())
    );
    assert_eq!(find_abc_string_containing(&exe, "gamma").unwrap(), None);
}

fn pe_with_section(name: &[u8; 8]) -> Vec<u8> {
    let mut v = vec![0u8; 0x200];
    v[0] = b'M';
    v[1] = b'Z';
    v[0x3C..0x40].copy_from_slice(&0x80u32.to_le_bytes());
    v[0x80..0x84].copy_from_slice(b"PE\0\0");
    let sec = 0x80 + 0xF8;
    v[sec..sec + 8].copy_from_slice(name);
    v
}

#[test]
fn upx_detection() {
    assert!(is_upx_packed(&pe_with_section(b"UPX0\0\0\0\0")));
    assert!(is_upx_packed(&pe_with_section(b"\0\0UPX1\0\0")));
    assert!(!is_upx_packed(&pe_with_section(b".text\0\0\0")));
    assert!(!is_upx_packed(&pe_with_section(b"UP\xffX\0\0\0\0")));
    assert!(!is_upx_packed(b"MZ"));
}

#[test]
fn publisher_key_search() {
    let (exe, _) = exe_with_swf();
    assert_eq!(extract_publisher_key(&exe), Some("pub1isher1l0O".to_string()));
    let (exe, _) = exe_with_strings(&["PUBLISHER_KEY_X"], &["other"]);
    assert_eq!(extract_publisher_key(&exe), Some("PUBLISHER_KEY_X".to_string()));
    let (exe, _) = exe_with_strings(&["fisher", "my-pub-key-ish"], &["x"]);
    assert_eq!(extract_publisher_key(&exe), Some("my-pub-key-ish".to_string()));
    let (exe, _) = exe_with_strings(&["pubish"], &["nothing"]);
    assert_eq!(extract_publisher_key(&exe), None);
    assert_eq!(extract_publisher_key_checked(&exe), Some(None));
}

#[test]
fn scan_finds_consecutive_swfs_without_overlap() {
    let (_, swf) = exe_with_swf();
    let mut exe = swf.clone();
    exe.extend_from_slice(&swf);
    let found = ExeScanner::from_bytes(exe).scan_swfs().unwrap();
    assert_eq!(found.len(), 2);
    assert_eq!(found[0].offset, 0);
    assert_eq!(found[1].offset, swf.len() as u64);
    assert!(found[0].offset + found[0].declared_length as u64 <= found[1].offset);
}

#[test]
fn abc_pools_with_entries_are_skipped() {
    // Int pool 0; uint pool 0; double pool count 2 (one 8-byte double);
    // string pool count 2 (one string "hi").
    let abc = [0x10, 0x00, 0x2E, 0x00, 0x00, 0x00, 0x02, 0, 0, 0, 0, 0, 0, 0, 0, 0x02, 0x02, b'h', b'i'];
    assert_eq!(parse_abc_string_pool(&abc), Some(vec!["hi".to_string()]));
    // One int (a two-byte variable-length integer) and one uint.
    let abc = [0x10, 0x00, 0x2E, 0x00, 0x02, 0x80, 0x01, 0x02, 0x05, 0x00, 0x02, 0x01, b'z'];
    assert_eq!(parse_abc_string_pool(&abc), Some(vec!["z".to_string()]));
    // An int pool that runs past the end.
    assert_eq!(parse_abc_string_pool(&[0x10, 0x00, 0x2E, 0x00, 0x03, 0x80]), None);
}

#[test]
fn doabc_tags_and_compressed_swfs() {
    // A DoABC (72) tag: flags, a name, then the block, as in DoABC2.
    let mut body = vec![0, 0, 0, 0, b'n', 0];
    body.extend_from_slice(&abc_block(&["plain"]));
    let mut swf = fws_header(0, 1);
    let raw: u16 = (72 << 6) | 0x3F;
    swf.extend_from_slice(&raw.to_le_bytes());
    swf.extend_from_slice(&(body.len() as u32).to_le_bytes());
    swf.extend_from_slice(&body);
    swf.extend_from_slice(&doabc2_tag(&abc_block(&["second"])));
    swf.extend_from_slice(&[0, 0]);
    assert_eq!(extract_strings_from_fws(&swf), vec!["plain".to_string(), "second".to_string()]);
    // The same SWF compressed: read as its uncompressed equivalent.
    let mut cws = b"CWS".to_vec();
    cws.extend_from_slice(&swf[3..8]);
    cws.extend_from_slice(&zlib(&swf[8..]));
    assert_eq!(extract_strings_from_fws(&cws), vec!["plain".to_string(), "second".to_string()]);
}
