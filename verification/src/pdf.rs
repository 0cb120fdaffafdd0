//! Page output helpers: reading the size of a JPEG page from its header,
//! and naming the pages of a JPEG export.
use vstd::prelude::*;
use std::path::{Path, PathBuf};
use crate::bytes::{push_decimal_padded, string_push_str, decimal, zero_padded};

verus! {

#[verifier::external_type_specification]
#[verifier::external_body]
pub struct ExPathBuf(std::path::PathBuf);

#[verifier::external_type_specification]
#[verifier::external_body]
pub struct ExPath(std::path::Path);

/// `Path::to_path_buf`: an owned copy of a path.  Nothing is stated of
/// the copy (paths are opaque here).
#[verifier::external_body]
fn path_to_buf(p: &Path) -> PathBuf {
    p.to_path_buf()
}

/// Where a PDF goes, and its title.
pub struct PdfOutput {
    /// Final destination path.
    pub path: PathBuf,
    /// Document title (usually the book's file stem).
    pub title: String,
}

/// Big-endian `u16` at `at`.
pub open spec fn spec_u16_be(d: Seq<u8>, at: int) -> int {
    d[at] * 256 + d[at + 1]
}

/// Markers without a length: SOI and the restart markers RST0..RST7.
pub open spec fn standalone_marker(m: u8) -> bool {
    m == 0xD8 || (0xD0 <= m <= 0xD7)
}

/// Start-of-frame markers SOF0..SOF3.
pub open spec fn sof_marker(m: u8) -> bool {
    m == 0xC0 || m == 0xC1 || m == 0xC2 || m == 0xC3
}

/// Walk the JPEG segments from `i` to the first start-of-frame segment and
/// read (width, height) there.
pub open spec fn jpeg_scan(d: Seq<u8>, i: int) -> Option<(u32, u32)>
    decreases d.len() - i,
{
    if i < 0 || i + 4 > d.len() {
        None
    } else if d[i] != 0xFF {
        None
    } else if standalone_marker(d[i + 1]) {
        jpeg_scan(d, i + 2)
    } else if sof_marker(d[i + 1]) {
        if i + 9 > d.len() {
            None
        } else {
            Some((spec_u16_be(d, i + 7) as u32, spec_u16_be(d, i + 5) as u32))
        }
    } else if spec_u16_be(d, i + 2) < 2 || i + 2 + spec_u16_be(d, i + 2) > d.len() {
        None
    } else {
        jpeg_scan(d, i + 2 + spec_u16_be(d, i + 2))
    }
}

/// Pixel (width, height) of a JPEG, from its first start-of-frame segment.
pub open spec fn spec_jpeg_dimensions(d: Seq<u8>) -> Option<(u32, u32)> {
    if d.len() < 4 || d[0] != 0xFF || d[1] != 0xD8 {
        None
    } else {
        jpeg_scan(d, 2)
    }
}

fn u16_be(d: &[u8], at: usize) -> (r: usize)
    requires
        at + 2 <= d@.len(),
    ensures
        r == spec_u16_be(d@, at as int),
{
    (d[at] as usize) * 256 + (d[at + 1] as usize)
}

/// Parse the pixel size of a JPEG from its start-of-frame marker without
/// decoding the image; `None` on a malformed header.
pub fn jpeg_dimensions(data: &[u8]) -> (r: Option<(u32, u32)>)
    ensures
        r == spec_jpeg_dimensions(data@),
{
    if data.len() < 4 || data[0] != 0xFF || data[1] != 0xD8 {
        return None;
    }
    let mut i: usize = 2;
    while i <= data.len() && data.len() - i >= 4
        invariant
            2 <= i,
            data@.len() >= 4,
            spec_jpeg_dimensions(data@) == jpeg_scan(data@, i as int),
        decreases data.len() - i,
    {
        if data[i] != 0xFF {
            return None;
        }
        let marker = data[i + 1];
        if marker == 0xD8 || (0xD0 <= marker && marker <= 0xD7) {
            i = i + 2;
            continue;
        }
        let len = u16_be(data, i + 2);
        if marker == 0xC0 || marker == 0xC1 || marker == 0xC2 || marker == 0xC3 {
            if data.len() - i < 9 {
                return None;
            }
            let h = u16_be(data, i + 5);
            let w = u16_be(data, i + 7);
            return Some((w as u32, h as u32));
        }
        if len < 2 || len > data.len() - i - 2 {
            return None;
        }
        i = i + 2 + len;
    }
    None
}

/// Writer of a JPEG export: page files named after a stem and a counter.
pub struct ExportWriter {
    dir: PathBuf,
    stem: String,
    count: u32,
}

/// File name of the `n`-th exported page: the stem, `_`, `n` padded with
/// zeros to four digits, and `.jpg`.
pub open spec fn page_file_name(stem: Seq<char>, n: nat) -> Seq<char> {
    stem + "_"@ + zero_padded(decimal(n), 4) + ".jpg"@
}

impl ExportWriter {
    /// A writer into `dir` with no page written yet.
    pub fn new(dir: &Path, stem: &str) -> (w: Self)
        ensures
            w.stem()@ == stem@,
            w.count() == 0,
    {
        ExportWriter { dir: path_to_buf(dir), stem: stem.to_string(), count: 0 }
    }

    pub closed spec fn stem(&self) -> String {
        self.stem
    }

    pub closed spec fn count(&self) -> u32 {
        self.count
    }

    pub closed spec fn dir_spec(&self) -> PathBuf {
        self.dir
    }

    /// The directory pages go to.
    pub fn dir(&self) -> (d: &PathBuf)
        ensures
            *d == self.dir_spec(),
    {
        &self.dir
    }

    /// Number of pages written so far.
    pub fn page_count(&self) -> (n: u32)
        ensures
            n == self.count(),
    {
        self.count
    }

    /// Count one more page and give the file name it is written under.
    pub fn next_page_name(&mut self) -> (name: String)
        requires
            old(self).count() < u32::MAX,
        ensures
            final(self).count() == old(self).count() + 1,
            final(self).stem() == old(self).stem(),
            name@ == page_file_name(old(self).stem()@, final(self).count() as nat),
    {
        self.count = self.count + 1;
        let mut name = String::new();
        string_push_str(&mut name, self.stem.as_str());
        string_push_str(&mut name, "_");
        push_decimal_padded(&mut name, self.count as u64, 4);
        string_push_str(&mut name, ".jpg");
        name
    }

    /// Whether the export may be closed: at least one page was written.
    pub fn can_finish(&self) -> (r: bool)
        ensures
            r == (self.count() > 0),
    {
        self.count > 0
    }
}

/// A start-of-frame header (marker `FF C0`, `FF C1`, `FF C2` or `FF C3`,
/// baseline and progressive alike) reached by the segment walk gives the
/// page size: width from bytes 7..9 after the marker, height from bytes
/// 5..7, both big-endian.  In particular a JPEG whose first segment after
/// SOI is a frame header has that frame's size.
pub proof fn law_frame_header_gives_size(d: Seq<u8>, i: int)
    requires
        0 <= i,
        i + 9 <= d.len(),
        d[i] == 0xFF,
        d[i + 1] == 0xC0 || d[i + 1] == 0xC1 || d[i + 1] == 0xC2 || d[i + 1] == 0xC3,
    ensures
        jpeg_scan(d, i) == Some(((d[i + 7] as int * 256 + d[i + 8]) as u32, (d[i + 5] as int * 256 + d[i + 6]) as u32)),
        i == 2 && d[0] == 0xFF && d[1] == 0xD8 ==> spec_jpeg_dimensions(d) == Some(
            ((d[9] as int * 256 + d[10]) as u32, (d[7] as int * 256 + d[8]) as u32),
        ),
{
}

/// Segments before the frame header are skipped by their length: a JPEG
/// with an application segment (`FF E0` to `FF EF`) of any content and
/// length, followed by a frame header, has that frame's size.
pub proof fn law_segments_before_frame_are_skipped(d: Seq<u8>, i: int)
    requires
        0 <= i,
        i + 4 <= d.len(),
        d[i] == 0xFF,
        0xE0 <= d[i + 1] <= 0xEF,
        d[i + 2] as int * 256 + d[i + 3] >= 2,
        ({
            let j = i + 2 + (d[i + 2] as int * 256 + d[i + 3]);
            &&& j + 9 <= d.len()
            &&& d[j] == 0xFF
            &&& (d[j + 1] == 0xC0 || d[j + 1] == 0xC1 || d[j + 1] == 0xC2 || d[j + 1] == 0xC3)
        }),
    ensures
        ({
            let j = i + 2 + (d[i + 2] as int * 256 + d[i + 3]);
            jpeg_scan(d, i) == Some(((d[j + 7] as int * 256 + d[j + 8]) as u32, (d[j + 5] as int * 256 + d[j + 6]) as u32))
        }),
{
    let j = i + 2 + (d[i + 2] as int * 256 + d[i + 3]);
    law_frame_header_gives_size(d, j);
}

} // verus!
