//! PE32 / PE32+ reader: just enough to list the section table.
use vstd::prelude::*;
use crate::bytes::{
    before_nul, decimal, nul_prefix_len, push_decimal, read_u16_le, read_u32_le, slice_range, spec_u16_le,
    spec_u32_le, str_eq, string_from_utf8_lossy, string_push_str, utf8_lossy,
};
use crate::aplib::aplib_message;

verus! {

/// Errors of the Enigma Virtual Box reader.
#[derive(Debug, Clone, Copy, PartialEq, Eq, Structural)]
pub enum EnigmaError {
    /// Not a valid PE file.
    InvalidPe,
    /// The PE image has no `.enigma1` section.
    NoEnigmaSection,
    /// The `EVB\0` magic is missing.
    InvalidMagic,
    /// The data ended early.
    UnexpectedEof,
    /// The VFS records are malformed.
    VfsParse(VfsProblem),
}

/// What is wrong with a malformed VFS.
#[derive(Debug, Clone, Copy, PartialEq, Eq, Structural)]
pub enum VfsProblem {
    /// A compressed file is shorter than its chunk block header.
    ChunkBlockTooSmall,
    /// The chunk block header declares an impossible size.
    InvalidChunkBlockSize { size: u32, stored: u32 },
    /// The chunk table lists no chunk.
    EmptyChunkTable,
    /// A chunk failed to decompress.
    Aplib(crate::aplib::AplibError),
    /// The decompressed size differs from the recorded one.
    SizeMismatch { expected: u32, got: u64 },
}

/// One entry of the section table.
#[derive(Debug, Clone)]
pub struct SectionInfo {
    pub name: String,
    pub virtual_address: u32,
    pub virtual_size: u32,
    pub raw_offset: u32,
    pub raw_size: u32,
}

/// Parsed PE headers.
#[derive(Debug, Clone)]
pub struct PeInfo {
    pub is_64bit: bool,
    pub sections: Vec<SectionInfo>,
}

/// File offset of the `PE\0\0` signature, as stored at 0x3C.
pub open spec fn pe_off(raw: Seq<u8>) -> int {
    spec_u32_le(raw, 0x3c) as int
}

/// DOS stub and PE signature are present.
pub open spec fn pe_signature_ok(raw: Seq<u8>) -> bool {
    &&& raw.len() >= 64
    &&& raw[0] == 0x4d && raw[1] == 0x5a
    &&& pe_off(raw) + 4 <= raw.len()
    &&& raw[pe_off(raw)] == 0x50 && raw[pe_off(raw) + 1] == 0x45 && raw[pe_off(raw) + 2] == 0
        && raw[pe_off(raw) + 3] == 0
}

/// The COFF header fields that are read lie inside the file whenever the
/// signature is present (a file with a signature but a truncated COFF
/// header cannot be read).
pub open spec fn pe_headers_readable(raw: Seq<u8>) -> bool {
    pe_signature_ok(raw) ==> pe_off(raw) + 26 <= raw.len()
}

pub open spec fn num_sections(raw: Seq<u8>) -> int {
    spec_u16_le(raw, pe_off(raw) + 6) as int
}

pub open spec fn section_table_start(raw: Seq<u8>) -> int {
    pe_off(raw) + 24 + spec_u16_le(raw, pe_off(raw) + 20) as int
}

/// Number of section entries read: entries are read in order while a
/// whole 40-byte entry fits in the file.
pub open spec fn sections_read(raw: Seq<u8>) -> int {
    let st = section_table_start(raw);
    if st > raw.len() {
        0
    } else if (raw.len() - st) / 40 < num_sections(raw) {
        (raw.len() - st) / 40
    } else {
        num_sections(raw)
    }
}

/// A section entry equals the 40-byte record at `off`.
pub open spec fn section_is(s: SectionInfo, raw: Seq<u8>, off: int) -> bool {
    &&& s.name@ == utf8_lossy(before_nul(raw.subrange(off, off + 8)))
    &&& s.virtual_size == spec_u32_le(raw, off + 8)
    &&& s.virtual_address == spec_u32_le(raw, off + 12)
    &&& s.raw_size == spec_u32_le(raw, off + 16)
    &&& s.raw_offset == spec_u32_le(raw, off + 20)
}

/// The parse result describes `raw`.
pub open spec fn pe_describes(pe: PeInfo, raw: Seq<u8>) -> bool {
    &&& pe.is_64bit == (spec_u16_le(raw, pe_off(raw) + 24) == 0x20b)
    &&& pe.sections@.len() == sections_read(raw)
    &&& forall|i: int|
        0 <= i < pe.sections@.len() ==> section_is(
            #[trigger] pe.sections@[i],
            raw,
            section_table_start(raw) + 40 * i,
        )
}

impl PeInfo {
    /// Whether [`PeInfo::parse`] can read `raw` (see [`pe_headers_readable`]).
    pub fn headers_readable(raw: &[u8]) -> (r: bool)
        ensures
            r == pe_headers_readable(raw@),
    {
        if !Self::signature_ok(raw) {
            return true;
        }
        let pe_offset = read_u32_le(raw, 0x3c) as u64;
        pe_offset + 26 <= raw.len() as u64
    }

    fn signature_ok(raw: &[u8]) -> (r: bool)
        ensures
            r == pe_signature_ok(raw@),
    {
        if raw.len() < 64 {
            return false;
        }
        if raw[0] != 0x4d || raw[1] != 0x5a {
            return false;
        }
        let pe_offset = read_u32_le(raw, 0x3c) as u64;
        if pe_offset + 4 > raw.len() as u64 {
            return false;
        }
        let p = pe_offset as usize;
        raw[p] == 0x50 && raw[p + 1] == 0x45 && raw[p + 2] == 0 && raw[p + 3] == 0
    }

    /// Parse the DOS stub, the PE signature and the section table.
    pub fn parse(raw: &[u8]) -> (r: Result<PeInfo, EnigmaError>)
        requires
            pe_headers_readable(raw@),
        ensures
            !pe_signature_ok(raw@) ==> r == Err::<PeInfo, EnigmaError>(EnigmaError::InvalidPe),
            pe_signature_ok(raw@) ==> r is Ok && pe_describes(r->Ok_0, raw@),
    {
        if !Self::signature_ok(raw) {
            return Err(EnigmaError::InvalidPe);
        }
        let pe_offset = read_u32_le(raw, 0x3c) as usize;
        assert(raw@.len() == raw.len());
        assert(pe_offset == pe_off(raw@));
        assert(pe_offset + 26 <= raw@.len());
        let coff = pe_offset + 4;
        let nsec = read_u16_le(raw, coff + 2);
        let opt_header_size = read_u16_le(raw, coff + 16);
        let opt_start = coff + 20;
        let magic = read_u16_le(raw, opt_start);
        let is_64bit = magic == 0x20b;
        let table_start: u64 = opt_start as u64 + opt_header_size as u64;
        let mut sections: Vec<SectionInfo> = Vec::new();
        let mut i: usize = 0;
        while i < nsec as usize
            invariant
                pe_signature_ok(raw@),
                table_start == section_table_start(raw@),
                nsec == num_sections(raw@),
                table_start <= raw@.len() + 65535 + 24,
                raw@.len() == raw.len(),
                i > 0 ==> table_start + 40 * i <= raw@.len(),
                is_64bit == (spec_u16_le(raw@, pe_off(raw@) + 24) == 0x20b),
                i <= nsec,
                sections@.len() == i,
                i <= sections_read(raw@),
                forall|k: int|
                    0 <= k < i ==> section_is(#[trigger] sections@[k], raw@, table_start + 40 * k),
            ensures
                sections@.len() == sections_read(raw@),
                forall|k: int|
                    0 <= k < sections@.len() ==> section_is(#[trigger] sections@[k], raw@, table_start + 40 * k),
            decreases nsec - i,
        {
            let off = table_start + (i as u64) * 40;
            if off + 40 > raw.len() as u64 {
                assert(sections_read(raw@) == i);
                break;
            }
            let off = off as usize;
            let name_bytes = slice_range(raw, off, off + 8);
            let name_end = nul_prefix_len(name_bytes);
            let name = string_from_utf8_lossy(slice_range(name_bytes, 0, name_end));
            let virtual_size = read_u32_le(raw, off + 8);
            let virtual_address = read_u32_le(raw, off + 12);
            let raw_size = read_u32_le(raw, off + 16);
            let raw_offset = read_u32_le(raw, off + 20);
            sections.push(SectionInfo { name, virtual_address, virtual_size, raw_offset, raw_size });
            i = i + 1;
        }
        let pe = PeInfo { is_64bit, sections };
        assert(pe.is_64bit == (spec_u16_le(raw@, pe_off(raw@) + 24) == 0x20b));
        assert(pe.sections@.len() == sections_read(raw@));
        Ok(pe)
    }

    /// The raw bytes of the first section called `name`, when they lie
    /// inside `raw`.
    pub fn section_data<'a>(&self, raw: &'a [u8], name: &str) -> (r: Option<&'a [u8]>)
        requires
            first_section_named(self.sections@, name@) matches Some(k) ==> self.sections@[k].raw_offset
                + self.sections@[k].raw_size <= u32::MAX,
        ensures
            match first_section_named(self.sections@, name@) {
                None => r is None,
                Some(k) => {
                    let s = self.sections@[k];
                    if s.raw_offset + s.raw_size <= raw@.len() {
                        r matches Some(d) && d@ == raw@.subrange(
                            s.raw_offset as int,
                            s.raw_offset + s.raw_size,
                        )
                    } else {
                        r is None
                    }
                },
            },
    {
        let mut k: usize = 0;
        while k < self.sections.len()
            invariant
                k <= self.sections@.len(),
                forall|j: int| 0 <= j < k ==> self.sections@[j].name@ != name@,
            decreases self.sections.len() - k,
        {
            if str_eq(self.sections[k].name.as_str(), name) {
                let s = &self.sections[k];
                proof {
                    assert(first_section_named(self.sections@, name@) == Some(k as int));
                }
                let end = s.raw_offset as u64 + s.raw_size as u64;
                if end <= raw.len() as u64 {
                    return Some(slice_range(raw, s.raw_offset as usize, end as usize));
                }
                return None;
            }
            k = k + 1;
        }
        None
    }
}

/// Index of the first section whose name is `name`.
pub open spec fn first_section_named(secs: Seq<SectionInfo>, name: Seq<char>) -> Option<int> {
    if exists|i: int| 0 <= i < secs.len() && secs[i].name@ == name {
        Some(
            choose|i: int|
                0 <= i < secs.len() && secs[i].name@ == name && forall|j: int|
                    0 <= j < i ==> secs[j].name@ != name,
        )
    } else {
        None
    }
}

/// Text of a [`VfsProblem`].
pub open spec fn vfs_problem_text(p: VfsProblem) -> Seq<char> {
    match p {
        VfsProblem::ChunkBlockTooSmall => "chunk block too small"@,
        VfsProblem::InvalidChunkBlockSize { size, stored } => "invalid chunk block size: "@ + decimal(size as nat)
            + " vs stored "@ + decimal(stored as nat),
        VfsProblem::EmptyChunkTable => "empty chunk table"@,
        VfsProblem::Aplib(e) => "aplib: "@ + aplib_message(e)@,
        VfsProblem::SizeMismatch { expected, got } => "decompressed size mismatch: expected "@ + decimal(
            expected as nat,
        ) + " bytes, got "@ + decimal(got as nat),
    }
}

/// Text of an [`EnigmaError`].
pub open spec fn enigma_message(e: EnigmaError) -> Seq<char> {
    match e {
        EnigmaError::InvalidPe => "Not a valid PE file"@,
        EnigmaError::NoEnigmaSection => "PE section .enigma1 not found"@,
        EnigmaError::InvalidMagic => "Invalid EVB magic: expected 'EVB\\0'"@,
        EnigmaError::UnexpectedEof => "Unexpected end of data"@,
        EnigmaError::VfsParse(p) => "VFS parse error: "@ + vfs_problem_text(p),
    }
}

impl EnigmaError {
    /// Human readable description of the error.
    pub fn message(&self) -> (r: String)
        ensures
            r@ == enigma_message(*self),
    {
        let mut s = String::new();
        match self {
            EnigmaError::InvalidPe => string_push_str(&mut s, "Not a valid PE file"),
            EnigmaError::NoEnigmaSection => string_push_str(&mut s, "PE section .enigma1 not found"),
            EnigmaError::InvalidMagic => string_push_str(&mut s, "Invalid EVB magic: expected 'EVB\\0'"),
            EnigmaError::UnexpectedEof => string_push_str(&mut s, "Unexpected end of data"),
            EnigmaError::VfsParse(p) => {
                string_push_str(&mut s, "VFS parse error: ");
                match p {
                    VfsProblem::ChunkBlockTooSmall => string_push_str(&mut s, "chunk block too small"),
                    VfsProblem::InvalidChunkBlockSize { size, stored } => {
                        string_push_str(&mut s, "invalid chunk block size: ");
                        push_decimal(&mut s, *size as u64);
                        string_push_str(&mut s, " vs stored ");
                        push_decimal(&mut s, *stored as u64);
                    },
                    VfsProblem::EmptyChunkTable => string_push_str(&mut s, "empty chunk table"),
                    VfsProblem::Aplib(e) => {
                        string_push_str(&mut s, "aplib: ");
                        string_push_str(&mut s, e.message());
                    },
                    VfsProblem::SizeMismatch { expected, got } => {
                        string_push_str(&mut s, "decompressed size mismatch: expected ");
                        push_decimal(&mut s, *expected as u64);
                        string_push_str(&mut s, " bytes, got ");
                        push_decimal(&mut s, *got);
                    },
                }
            },
        }
        proof {
            if let EnigmaError::VfsParse(p) = *self {
                match p {
                    VfsProblem::InvalidChunkBlockSize { size, stored } => {
                        assert(s@ =~= enigma_message(*self));
                    },
                    VfsProblem::SizeMismatch { expected, got } => {
                        assert(s@ =~= enigma_message(*self));
                    },
                    _ => {
                        assert(s@ =~= enigma_message(*self));
                    },
                }
            }
        }
        s
    }
}

} // verus!
