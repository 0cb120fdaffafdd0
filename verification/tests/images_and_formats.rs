use image::{DynamicImage, ImageBuffer, Rgb, Rgba};

use swf::avm2::types::{AbcFile, ConstantPool, Index, Method, MethodBody, MethodFlags};
use zkitap::aplib::{crc32, decompress, decompress_checked, AplibError};
use zkitap::enigma::unpack_image_checked;
use zkitap::records::vfs_offsets_fit_test;
use zkitap::assets::{AssetBundle, FernusAssets};
use zkitap::crypto::{check_process, CheckError, SwfBody};
use zkitap::enigma::{decompress_chunks, unpack_image};
use zkitap::overlay::merge_overlay;
use zkitap::pdf::{jpeg_dimensions, ExportWriter};
use zkitap::pe::{EnigmaError, PeInfo, VfsProblem};
use zkitap::pipeline::has_enigma;

fn rgb(w: u32, h: u32, v: u8) -> image::RgbImage {
    ImageBuffer::from_pixel(w, h, Rgb([v, v, v]))
}

#[test]
fn merge_overlay_opaque_replaces() {
    // Fully opaque overlay should fully replace the base pixels it covers.
    let base = rgb(4, 4, 0);
    let overlay = DynamicImage::ImageRgb8(rgb(4, 4, 255)).to_rgba8();
    let out = merge_overlay(base.as_raw(), 4, 4, overlay.as_raw(), 4, 4);
    let out = image::RgbImage::from_raw(4, 4, out).unwrap();
    assert_eq!(out.dimensions(), (4, 4));
    assert_eq!(*out.get_pixel(2, 2), Rgb([255, 255, 255]));
}

#[test]
fn merge_overlay_grows_for_a_taller_overlay() {
    let base = rgb(4, 4, 0);
    let overlay = DynamicImage::ImageRgb8(rgb(4, 8, 255)).to_rgba8();
    let out = merge_overlay(base.as_raw(), 4, 4, overlay.as_raw(), 4, 8);
    let out = image::RgbImage::from_raw(4, 8, out).unwrap();
    assert!(out.pixels().all(|p| *p == Rgb([255, 255, 255])));
}

#[test]
fn merge_overlay_blends_and_grows() {
    let base = rgb(1, 1, 100);
    let overlay: image::RgbaImage = ImageBuffer::from_fn(2, 1, |x, _| {
        if x == 0 {
            Rgba([200, 0, 255, 128])
        } else {
            Rgba([9, 9, 9, 0])
        }
    });
    let out = merge_overlay(base.as_raw(), 1, 1, overlay.as_raw(), 2, 1);
    // (200 * 128 + 100 * 127) / 255 = 150, (0 * 128 + 100 * 127) / 255 = 49,
    // (255 * 128 + 100 * 127) / 255 = 177; the grown pixel stays black.
    assert_eq!(out, vec![150, 49, 177, 0, 0, 0]);
}

#[test]
fn jpeg_sizes() {
    let jpeg = [
        0xFF, 0xD8, 0xFF, 0xE0, 0x00, 0x04, 0xAA, 0xBB, 0xFF, 0xD0, 0xFF, 0xC2, 0x00, 0x11, 0x08,
        0x01, 0xE0, 0x02, 0x80,
    ];
    assert_eq!(jpeg_dimensions(&jpeg), Some((640, 480)));
    assert_eq!(jpeg_dimensions(&jpeg[..17]), None);
    assert_eq!(jpeg_dimensions(b"\x89PNG"), None);
    assert_eq!(jpeg_dimensions(&[0xFF, 0xD8, 0x00, 0x00, 0x00]), None);
    assert_eq!(jpeg_dimensions(&[0xFF, 0xD8, 0xFF, 0xE0, 0x00, 0x01, 0, 0]), None);
}

#[test]
fn export_page_names() {
    let mut w = ExportWriter::new(std::path::Path::new("/tmp/pages"), "book");
    assert!(!w.can_finish());
    assert_eq!(w.next_page_name(), "book_0001.jpg");
    assert_eq!(w.next_page_name(), "book_0002.jpg");
    assert_eq!(w.page_count(), 2);
    assert!(w.can_finish());
    assert_eq!(w.dir(), &std::path::PathBuf::from("/tmp/pages"));
    for _ in 0..10000 {
        w.next_page_name();
    }
    assert_eq!(w.next_page_name(), "book_10003.jpg");
}

#[test]
fn bundles_with_pages() {
    let root = std::path::PathBuf::from("book");
    let b = AssetBundle { root: root.clone(), sysd: None, sysb: Some(root.join("sysb.dll")), sysm: None, publisher: None };
    assert!(b.has_pages());
    let f = FernusAssets { root, publisher: None, sysd: None, sysb: None, sysm: None };
    assert!(!f.has_pages());
}

#[test]
fn aplib_streams() {
    // `A`, then a literal `B` (tag bit 0), then the end marker (bits 1 1 0
    // and a zero offset byte).
    assert_eq!(decompress(&[0x41, 0x60, 0x42, 0x00], false), Ok(b"AB".to_vec()));
    assert_eq!(decompress(&[0x41, 0xC0, 0x00], true), Ok(b"A".to_vec()));
    assert_eq!(decompress(&[0x41], false), Err(AplibError::UnexpectedEof));
    assert_eq!(crc32(b"123456789"), 0xCBF43926);
    let payload = [0x41u8, 0xC0, 0x00];
    let mut framed = b"AP32".to_vec();
    for v in [24u32, 3, crc32(&payload), 1, crc32(b"A")] {
        framed.extend_from_slice(&v.to_le_bytes());
    }
    framed.extend_from_slice(&payload);
    assert_eq!(decompress(&framed, true), Ok(b"A".to_vec()));
    // A wrong depacked size or depacked CRC is reported in strict mode only.
    let mut wrong_size = framed.clone();
    wrong_size[16] = 2;
    assert_eq!(decompress(&wrong_size, true), Err(AplibError::OriginalSizeMismatch));
    assert_eq!(decompress(&wrong_size, false), Ok(b"A".to_vec()));
    let mut wrong_crc = framed.clone();
    wrong_crc[20] ^= 1;
    assert_eq!(decompress(&wrong_crc, true), Err(AplibError::OriginalCrcMismatch));
    assert_eq!(decompress(&wrong_crc, false), Ok(b"A".to_vec()));
    framed[12] ^= 1;
    assert_eq!(decompress(&framed, true), Err(AplibError::PackedCrcMismatch));
    assert_eq!(decompress(&framed, false), Ok(b"A".to_vec()));
    framed[8] = 200;
    assert_eq!(decompress(&framed, false), Err(AplibError::InvalidHeader));
}

fn pe(sections: &[&[u8; 8]]) -> Vec<u8> {
    let mut v = vec![0u8; 0x400];
    v[0] = b'M';
    v[1] = b'Z';
    v[0x3C..0x40].copy_from_slice(&0x80u32.to_le_bytes());
    v[0x80..0x84].copy_from_slice(b"PE\0\0");
    v[0x86..0x88].copy_from_slice(&(sections.len() as u16).to_le_bytes());
    v[0x94..0x96].copy_from_slice(&0xE0u16.to_le_bytes());
    for (i, name) in sections.iter().enumerate() {
        let at = 0x80 + 24 + 0xE0 + 40 * i;
        v[at..at + 8].copy_from_slice(*name);
    }
    v
}

#[test]
fn enigma_detection() {
    let plain = pe(&[b".text\0\0\0", b".data\0\0\0"]);
    let packed = pe(&[b".text\0\0\0", b".enigma1"]);
    assert!(!has_enigma(&plain));
    assert!(has_enigma(&packed));
    assert!(!has_enigma(b"MZ"));
    let info = PeInfo::parse(&packed).unwrap();
    assert_eq!(info.sections.len(), 2);
    assert_eq!(info.sections[1].name, ".enigma1");
    assert_eq!(unpack_image(&plain).err(), Some(EnigmaError::NoEnigmaSection));
    assert_eq!(unpack_image(b"not a program").err(), Some(EnigmaError::InvalidPe));
}

#[test]
fn hidden_string_search_over_a_swf() {
    // A tag stream holding only the end tag: nothing to find.
    let empty = SwfBody { version: 10, data: vec![0, 0] };
    assert_eq!(check_process(&empty), Ok(None));
    // A tag stream cut inside a tag header does not parse.
    let cut = SwfBody { version: 10, data: vec![0x3F] };
    assert_eq!(check_process(&cut), Err(CheckError::Parse));
}

fn abc_bytes(strings: Vec<Vec<u8>>, codes: Vec<Vec<u8>>) -> Vec<u8> {
    let abc = AbcFile {
        major_version: 46,
        minor_version: 16,
        constant_pool: ConstantPool {
            ints: vec![],
            uints: vec![],
            doubles: vec![],
            strings,
            namespaces: vec![],
            namespace_sets: vec![],
            multinames: vec![],
        },
        methods: (0..codes.len())
            .map(|_| Method {
                name: Index::new(0),
                params: vec![],
                return_type: Index::new(0),
                flags: MethodFlags::empty(),
                body: None,
            })
            .collect(),
        metadata: vec![],
        instances: vec![],
        classes: vec![],
        scripts: vec![],
        method_bodies: codes
            .into_iter()
            .enumerate()
            .map(|(i, code)| MethodBody {
                method: Index::new(i as u32),
                max_stack: 0,
                num_locals: 0,
                init_scope_depth: 0,
                max_scope_depth: 0,
                code,
                exceptions: vec![],
                traits: vec![],
            })
            .collect(),
    };
    let mut out = Vec::new();
    swf::avm2::write::Writer::new(&mut out).write(abc).unwrap();
    out
}

fn doabc2_stream(abc: &[u8]) -> Vec<u8> {
    let mut body = vec![1, 0, 0, 0, b'f', 0];
    body.extend_from_slice(abc);
    let raw: u16 = (82 << 6) | 0x3F;
    let mut v = raw.to_le_bytes().to_vec();
    v.extend_from_slice(&(body.len() as u32).to_le_bytes());
    v.extend_from_slice(&body);
    v.extend_from_slice(&[0, 0]);
    v
}

#[test]
fn hidden_string_search_reads_method_bodies() {
    // Strings without the `==` marker: the search ends empty-handed.
    let abc = abc_bytes(vec![b"hello".to_vec(), b"world".to_vec()], vec![vec![44, 0, 44, 1]]);
    let swf = SwfBody { version: 10, data: doabc2_stream(&abc) };
    assert_eq!(check_process(&swf), Ok(None));
    // A marked string that does not decode is reported.
    let abc = abc_bytes(vec![b"==nope".to_vec()], vec![vec![0x30], vec![44, 0]]);
    let swf = SwfBody { version: 10, data: doabc2_stream(&abc) };
    assert_eq!(
        check_process(&swf),
        Err(CheckError::Crypto(zkitap::kk::CryptoError::Base64 { context: "fd2 base64" }))
    );
    // A block that is not ABC.
    let swf = SwfBody { version: 10, data: doabc2_stream(&[1, 2]) };
    assert_eq!(check_process(&swf), Err(CheckError::Abc));
}

#[test]
fn checked_unpacking() {
    assert_eq!(decompress_checked(&[0x41, 0x60, 0x42, 0x00], false), Some(Ok(b"AB".to_vec())));
    assert_eq!(decompress_checked(&[0x41], false), Some(Err(AplibError::UnexpectedEof)));
    // PE headers that end inside the COFF header cannot be read.
    let mut short = b"MZ".to_vec();
    short.resize(0x40, 0);
    short[0x3C..0x40].copy_from_slice(&0x40u32.to_le_bytes());
    short.extend_from_slice(b"PE\0\0");
    assert!(unpack_image_checked(&short).is_none());
    assert_eq!(unpack_image_checked(&pe(&[b".text\0\0\0"])).map(|r| r.err()), Some(Some(EnigmaError::NoEnigmaSection)));
    // A VFS header whose main node size is near the top of the range: the
    // offsets still fit.
    let mut vfs = b"EVB\0".to_vec();
    vfs.resize(80, 0);
    assert!(vfs_offsets_fit_test(&vfs));
}

#[test]
fn error_texts() {
    assert_eq!(AplibError::InvalidHeader.message(), "invalid AP32 header");
    assert_eq!(EnigmaError::InvalidPe.message(), "Not a valid PE file");
    assert_eq!(EnigmaError::InvalidMagic.message(), "Invalid EVB magic: expected 'EVB\\0'");
    assert_eq!(
        EnigmaError::VfsParse(VfsProblem::SizeMismatch { expected: 10, got: 7 }).message(),
        "VFS parse error: decompressed size mismatch: expected 10 bytes, got 7"
    );
    assert_eq!(
        EnigmaError::VfsParse(VfsProblem::Aplib(AplibError::UnexpectedEof)).message(),
        "VFS parse error: aplib: unexpected end of aPLib stream"
    );
    assert_eq!(
        EnigmaError::VfsParse(VfsProblem::InvalidChunkBlockSize { size: 4, stored: 100 }).message(),
        "VFS parse error: invalid chunk block size: 4 vs stored 100"
    );
}

fn vfs_record(count: u32, name: &str, kind: u8, size: u32) -> Vec<u8> {
    let mut v = vec![0u8; 16];
    v[12..16].copy_from_slice(&count.to_le_bytes());
    for u in name.encode_utf16() {
        v.extend_from_slice(&u.to_le_bytes());
    }
    v.extend_from_slice(&[0, 0]);
    v.push(kind);
    if kind == 2 {
        let mut t = vec![0u8; 53];
        t[2..6].copy_from_slice(&size.to_le_bytes());
        t[49..53].copy_from_slice(&size.to_le_bytes());
        v.extend_from_slice(&t);
    } else {
        v.extend_from_slice(&[0u8; 25]);
    }
    v
}

/// A VFS with a folder `data` holding `b.bin`, and `a.txt` at the root.
fn vfs_image() -> Vec<u8> {
    let mut v = vec![0u8; 79];
    v[0..4].copy_from_slice(b"EVB\0");
    v[76] = 2;
    v.extend_from_slice(&vfs_record(1, "data", 3, 0));
    v.extend_from_slice(&vfs_record(0, "b.bin", 2, 3));
    v.extend_from_slice(&vfs_record(0, "a\u{1F600}é.txt", 2, 5));
    let size = (v.len() - 68) as u32;
    v[64..68].copy_from_slice(&size.to_le_bytes());
    v.extend_from_slice(b"BBB");
    v.extend_from_slice(b"hello");
    v
}

#[test]
fn vfs_tree_and_unpacking() {
    let vfs = vfs_image();
    let entries = zkitap::records::parse_vfs_tree(&vfs).unwrap();
    let paths: Vec<&str> = entries.iter().map(|e| e.path.as_str()).collect();
    assert_eq!(paths, vec!["data/b.bin", "a\u{1F600}é.txt"]);
    assert_eq!(entries[1].stored_size, 5);

    let mut exe = pe(&[b".text\0\0\0", b".enigma1"]);
    let at = 0x80 + 24 + 0xE0 + 40;
    exe[at + 16..at + 20].copy_from_slice(&(vfs.len() as u32).to_le_bytes());
    let start = exe.len() as u32;
    exe[at + 20..at + 24].copy_from_slice(&start.to_le_bytes());
    exe.extend_from_slice(&vfs);
    let files = unpack_image(&exe).unwrap();
    let got: Vec<(&str, &[u8])> = files.iter().map(|f| (f.path.as_str(), f.data.as_slice())).collect();
    assert_eq!(got, vec![("data/b.bin", &b"BBB"[..]), ("a\u{1F600}é.txt", &b"hello"[..])]);
    assert_eq!(unpack_image_checked(&exe).map(|r| r.map(|v| v.len())), Some(Ok(2)));
    // Without the magic the section is refused.
    let mut bad = exe.clone();
    let start = bad.len() - vfs.len();
    bad[start] = b'X';
    assert_eq!(unpack_image(&bad).err(), Some(EnigmaError::InvalidMagic));
}

#[test]
fn chunked_file_contents() {
    let mut block = Vec::new();
    block.extend_from_slice(&20u32.to_le_bytes());
    block.extend_from_slice(&[0u8; 4]);
    block.extend_from_slice(&4u32.to_le_bytes());
    block.extend_from_slice(&[0u8; 8]);
    block.extend_from_slice(&[0x41, 0x60, 0x42, 0x00]);
    let n = block.len() as u32;
    assert_eq!(decompress_chunks(&block, 0, n, 2), Ok(b"AB".to_vec()));
    assert_eq!(
        decompress_chunks(&block, 0, n, 3),
        Err(EnigmaError::VfsParse(VfsProblem::SizeMismatch { expected: 3, got: 2 }))
    );
    assert_eq!(decompress_chunks(&block, 0, 4, 2), Err(EnigmaError::VfsParse(VfsProblem::ChunkBlockTooSmall)));
}
