//! Enigma Virtual Box: extraction of the files packed into a PE image.
use vstd::prelude::*;
use crate::aplib::{spec_decompress, decompress_checked, Outcome};
use crate::bytes::{
    before_nul, append_bytes, copy_range, find_bytes, first_occurrence, read_u32_le, slice_range, spec_u32_le,
    str_eq, utf8_lossy,
};
use crate::pe::{
    pe_describes, pe_headers_readable, pe_signature_ok, section_table_start,
    sections_read, EnigmaError, PeInfo, VfsProblem,
};
use crate::records::{vfs_offsets_fit_test, parse_vfs_tree, spec_vfs_tree, vfs_offsets_fit, EntrySpec, VfsEntry};

verus! {

/// A file extracted from the virtual file system.
#[derive(Debug)]
pub struct ExtractedFile {
    pub path: String,
    pub data: Vec<u8>,
}

/// Result of the model: a value, an error, or an input on which an
/// arithmetic operation of the reader would overflow.
pub enum Unpacked<T> {
    Val(T),
    Fail(EnigmaError),
    Overflow,
}

/// Sizes of the compressed chunks: every third 32-bit entry of the chunk
/// table, starting with the first.
pub open spec fn chunk_sizes(table: Seq<u8>) -> Seq<u32> {
    Seq::new(((table.len() / 4 + 2) / 3) as nat, |j: int| spec_u32_le(table, 12 * j))
}

/// Decompress the chunks of `data` (sizes `sizes`, from `pos` on) one after
/// the other and concatenate them.
pub open spec fn spec_chunks(data: Seq<u8>, sizes: Seq<u32>, pos: int) -> Unpacked<Seq<u8>>
    decreases sizes.len(),
{
    if sizes.len() == 0 {
        Unpacked::Val(Seq::empty())
    } else if pos + sizes[0] > data.len() {
        Unpacked::Fail(EnigmaError::UnexpectedEof)
    } else {
        match spec_decompress(data.subrange(pos, pos + sizes[0]), false) {
            Outcome::Done(v) => match spec_chunks(data, sizes.drop_first(), pos + sizes[0]) {
                Unpacked::Val(r) => Unpacked::Val(v + r),
                other => other,
            },
            Outcome::Fail(e) => Unpacked::Fail(EnigmaError::VfsParse(VfsProblem::Aplib(e))),
            Outcome::Overflow => Unpacked::Overflow,
        }
    }
}

/// Contents of a file stored in chunk format: a header whose first word is
/// the size of the header and chunk table, the chunk table, then the
/// aPLib-compressed chunks.
#[verifier::opaque]
pub open spec fn spec_decompress_chunks(block: Seq<u8>, original_size: u32) -> Unpacked<Seq<u8>> {
    if block.len() < 8 {
        Unpacked::Fail(EnigmaError::VfsParse(VfsProblem::ChunkBlockTooSmall))
    } else {
        let blk = spec_u32_le(block, 0);
        if blk < 8 || blk > block.len() {
            Unpacked::Fail(
                EnigmaError::VfsParse(
                    VfsProblem::InvalidChunkBlockSize { size: blk, stored: block.len() as u32 },
                ),
            )
        } else {
            let sizes = chunk_sizes(block.subrange(8, blk as int));
            if sizes.len() == 0 {
                Unpacked::Fail(EnigmaError::VfsParse(VfsProblem::EmptyChunkTable))
            } else {
                match spec_chunks(block.subrange(blk as int, block.len() as int), sizes, 0) {
                    Unpacked::Val(out) => if out.len() != original_size {
                        Unpacked::Fail(
                            EnigmaError::VfsParse(
                                VfsProblem::SizeMismatch {
                                    expected: original_size,
                                    got: out.len() as u64,
                                },
                            ),
                        )
                    } else {
                        Unpacked::Val(out)
                    },
                    other => other,
                }
            }
        }
    }
}

/// The model's outcome as an exact copy: bytes, an error, or overflow.
pub open spec fn unpacked_bytes_is(r: Unpacked<Vec<u8>>, m: Unpacked<Seq<u8>>) -> bool {
    match m {
        Unpacked::Val(v) => r matches Unpacked::Val(w) && w@ == v,
        Unpacked::Fail(e) => r == Unpacked::<Vec<u8>>::Fail(e),
        Unpacked::Overflow => r is Overflow,
    }
}

/// Decompress a file stored in EVB chunk format, `stored_size` bytes at
/// `offset` in `raw`.
pub fn decompress_chunks(raw: &[u8], offset: u64, stored_size: u32, original_size: u32) -> (r: Result<
    Vec<u8>,
    EnigmaError,
>)
    requires
        offset + stored_size <= raw@.len(),
        !(spec_decompress_chunks(
            raw@.subrange(offset as int, offset + stored_size),
            original_size,
        ) is Overflow),
    ensures
        match spec_decompress_chunks(raw@.subrange(offset as int, offset + stored_size), original_size) {
            Unpacked::Val(v) => r is Ok && r->Ok_0@ == v,
            Unpacked::Fail(e) => r == Err::<Vec<u8>, EnigmaError>(e),
            Unpacked::Overflow => false,
        },
{
    match chunks_outcome(raw, offset, stored_size, original_size) {
        Unpacked::Val(v) => Ok(v),
        Unpacked::Fail(e) => Err(e),
        Unpacked::Overflow => Err(EnigmaError::UnexpectedEof),
    }
}

fn chunks_outcome(raw: &[u8], offset: u64, stored_size: u32, original_size: u32) -> (r: Unpacked<Vec<u8>>)
    requires
        offset + stored_size <= raw@.len(),
    ensures
        unpacked_bytes_is(r, spec_decompress_chunks(raw@.subrange(offset as int, offset + stored_size), original_size)),
{
    reveal(spec_decompress_chunks);
    assert(raw@.len() == raw.len());
    let start = offset as usize;
    let block = slice_range(raw, start, start + stored_size as usize);
    let ghost blk_model = raw@.subrange(offset as int, offset + stored_size);
    assert(block@ == blk_model);
    if block.len() < 8 {
        return Unpacked::Fail(EnigmaError::VfsParse(VfsProblem::ChunkBlockTooSmall));
    }
    let blk = read_u32_le(block, 0);
    if blk < 8 || blk > stored_size {
        return Unpacked::Fail(
            EnigmaError::VfsParse(VfsProblem::InvalidChunkBlockSize { size: blk, stored: stored_size }),
        );
    }
    let table = slice_range(block, 8, blk as usize);
    let mut sizes: Vec<u32> = Vec::new();
    let n = table.len() / 4;
    let mut j: usize = 0;
    while j < n
        invariant
            n == table@.len() / 4,
            j <= n + 2,
            j == 3 * sizes@.len(),
            forall|k: int| 0 <= k < sizes@.len() ==> sizes@[k] == spec_u32_le(table@, 12 * k),
        decreases n + 2 - j,
    {
        assert(4 * j + 4 <= table@.len()) by (nonlinear_arith)
            requires
                j < n,
                n == table@.len() / 4,
        ;
        assert(table@.len() == table.len());
        sizes.push(read_u32_le(table, 4 * j));
        j = j + 3;
    }
    assert(sizes@ =~= chunk_sizes(table@));
    if sizes.len() == 0 {
        return Unpacked::Fail(EnigmaError::VfsParse(VfsProblem::EmptyChunkTable));
    }
    let compressed = slice_range(block, blk as usize, block.len());
    let mut pos: usize = 0;
    let mut output: Vec<u8> = Vec::new();
    let mut i: usize = 0;
    let ghost total = spec_chunks(compressed@, sizes@, 0);
    assert(sizes@.subrange(0, sizes@.len() as int) =~= sizes@);
    assert(output@ + total->Val_0 =~= total->Val_0);
    assert(compressed@ == blk_model.subrange(blk as int, blk_model.len() as int));
    assert(table@ == blk_model.subrange(8, blk as int));
    while i < sizes.len()
        invariant
            i <= sizes@.len(),
            pos <= compressed@.len(),
            total == spec_chunks(compressed@, sizes@, 0),
            blk_model == raw@.subrange(offset as int, offset + stored_size),
            blk_model.len() >= 8,
            blk == spec_u32_le(blk_model, 0),
            8 <= blk <= blk_model.len(),
            compressed@ == blk_model.subrange(blk as int, blk_model.len() as int),
            sizes@ == chunk_sizes(blk_model.subrange(8, blk as int)),
            sizes@.len() > 0,
            match spec_chunks(compressed@, sizes@.subrange(i as int, sizes@.len() as int), pos as int) {
                Unpacked::Val(r) => total == Unpacked::Val(output@ + r),
                Unpacked::Fail(e) => total == Unpacked::<Seq<u8>>::Fail(e),
                Unpacked::Overflow => total is Overflow,
            },
        decreases sizes.len() - i,
    {
        proof {
            reveal(spec_decompress_chunks);
        }
        let size = sizes[i] as usize;
        let ghost rest = sizes@.subrange(i as int, sizes@.len() as int);
        assert(rest.drop_first() =~= sizes@.subrange(i + 1, sizes@.len() as int));
        assert(rest[0] == sizes@[i as int]);
        if size > compressed.len() - pos {
            return Unpacked::Fail(EnigmaError::UnexpectedEof);
        }
        let chunk = slice_range(compressed, pos, pos + size);
        let dec = match decompress_checked(chunk, false) {
            Some(Ok(d)) => d,
            Some(Err(e)) => return Unpacked::Fail(EnigmaError::VfsParse(VfsProblem::Aplib(e))),
            None => return Unpacked::Overflow,
        };
        proof {
            match spec_chunks(compressed@, rest.drop_first(), pos + size) {
                Unpacked::Val(r) => {
                    assert(output@ + (dec@ + r) =~= (output@ + dec@) + r);
                },
                _ => {},
            }
        }
        append_bytes(&mut output, dec.as_slice());
        pos = pos + size;
        i = i + 1;
    }
    assert(sizes@.subrange(i as int, sizes@.len() as int) =~= Seq::<u32>::empty());
    assert(output@ + Seq::<u8>::empty() =~= output@);
    if output.len() as u64 != original_size as u64 {
        return Unpacked::Fail(
            EnigmaError::VfsParse(
                VfsProblem::SizeMismatch { expected: original_size, got: output.len() as u64 },
            ),
        );
    }
    Unpacked::Val(output)
}

/// Name of the section table entry `i`.
pub open spec fn section_name(raw: Seq<u8>, i: int) -> Seq<char> {
    let off = section_table_start(raw) + 40 * i;
    utf8_lossy(before_nul(raw.subrange(off, off + 8)))
}

/// Index of the first `.enigma1` section at or after entry `j`.
pub open spec fn enigma1_from(raw: Seq<u8>, j: int) -> Option<int>
    decreases sections_read(raw) - j,
{
    if j < 0 || j >= sections_read(raw) {
        None
    } else if section_name(raw, j) == ".enigma1"@ {
        Some(j)
    } else {
        enigma1_from(raw, j + 1)
    }
}

/// The `EVB\0` magic.
pub open spec fn evb_magic() -> Seq<u8> {
    seq![0x45u8, 0x56u8, 0x42u8, 0u8]
}

/// The model of an extracted file: its path and contents.
pub open spec fn file_is(f: ExtractedFile, m: (Seq<char>, Seq<u8>)) -> bool {
    f.path@ == m.0 && f.data@ == m.1
}

/// Contents of one listed file, whose data offset is relative to `base`:
/// `None` when it extends beyond the image (it is skipped); a file whose
/// stored size differs from its size is stored in chunk format.
pub open spec fn spec_extract_one(raw: Seq<u8>, base: int, e: EntrySpec) -> Unpacked<Option<Seq<u8>>> {
    let abs = base + e.offset;
    let end = abs + e.stored_size;
    if end > u64::MAX {
        Unpacked::Overflow
    } else if end > raw.len() {
        Unpacked::Val(None)
    } else if e.stored_size != e.original_size {
        match spec_decompress_chunks(raw.subrange(abs, end), e.original_size) {
            Unpacked::Val(d) => Unpacked::Val(Some(d)),
            Unpacked::Fail(x) => Unpacked::Fail(x),
            Unpacked::Overflow => Unpacked::Overflow,
        }
    } else {
        Unpacked::Val(Some(raw.subrange(abs, end)))
    }
}

/// Extract the listed files in order.
pub open spec fn spec_extract(raw: Seq<u8>, base: int, es: Seq<EntrySpec>) -> Unpacked<
    Seq<(Seq<char>, Seq<u8>)>,
>
    decreases es.len(),
{
    if es.len() == 0 {
        Unpacked::Val(Seq::empty())
    } else {
        match spec_extract_one(raw, base, es[0]) {
            Unpacked::Val(None) => spec_extract(raw, base, es.drop_first()),
            Unpacked::Val(Some(d)) => match spec_extract(raw, base, es.drop_first()) {
                Unpacked::Val(r) => Unpacked::Val(seq![(es[0].path, d)] + r),
                other => other,
            },
            Unpacked::Fail(x) => Unpacked::Fail(x),
            Unpacked::Overflow => Unpacked::Overflow,
        }
    }
}

/// Contents of one VFS file (see [`spec_extract_one`]).
fn extract_one(raw: &[u8], base: u64, e: &VfsEntry, Ghost(m): Ghost<EntrySpec>) -> (r: Unpacked<
    Option<Vec<u8>>,
>)
    requires
        e.is_entry(m),
    ensures
        match spec_extract_one(raw@, base as int, m) {
            Unpacked::Val(None) => r matches Unpacked::Val(None),
            Unpacked::Val(Some(d)) => r matches Unpacked::Val(Some(v)) && v@ == d,
            Unpacked::Fail(x) => r == Unpacked::<Option<Vec<u8>>>::Fail(x),
            Unpacked::Overflow => r is Overflow,
        },
{
    if e.offset > u64::MAX - base || e.stored_size as u64 > u64::MAX - (base + e.offset) {
        return Unpacked::Overflow;
    }
    let abs = base + e.offset;
    let end_offset = abs + e.stored_size as u64;
    if end_offset > raw.len() as u64 {
        return Unpacked::Val(None);
    }
    if e.stored_size != e.original_size {
        match chunks_outcome(raw, abs, e.stored_size, e.original_size) {
            Unpacked::Val(d) => Unpacked::Val(Some(d)),
            Unpacked::Fail(x) => Unpacked::Fail(x),
            Unpacked::Overflow => Unpacked::Overflow,
        }
    } else {
        Unpacked::Val(Some(copy_range(raw, abs as usize, end_offset as usize)))
    }
}

/// The files packed into a PE image by Enigma Virtual Box: the VFS starts
/// at the `EVB\0` magic inside the first `.enigma1` section.
pub open spec fn spec_unpack_image(raw: Seq<u8>) -> Unpacked<Seq<(Seq<char>, Seq<u8>)>> {
    if !pe_signature_ok(raw) {
        Unpacked::Fail(EnigmaError::InvalidPe)
    } else {
        match enigma1_from(raw, 0) {
            None => Unpacked::Fail(EnigmaError::NoEnigmaSection),
            Some(i) => {
                let off = section_table_start(raw) + 40 * i;
                let start = spec_u32_le(raw, off + 20) as int;
                let end = start + spec_u32_le(raw, off + 16);
                if end > raw.len() {
                    Unpacked::Fail(EnigmaError::UnexpectedEof)
                } else {
                    let sec = raw.subrange(start, end);
                    match first_occurrence(sec, evb_magic()) {
                        None => Unpacked::Fail(EnigmaError::InvalidMagic),
                        Some(m) => {
                            let vfs = sec.subrange(m, sec.len() as int);
                            if !vfs_offsets_fit(vfs) {
                                Unpacked::Overflow
                            } else {
                                match spec_vfs_tree(vfs) {
                                    Err(e) => Unpacked::Fail(e),
                                    Ok(es) => spec_extract(raw, start + m, es),
                                }
                            }
                        },
                    }
                }
            },
        }
    }
}

/// The extracted files match the model.
pub open spec fn files_are(v: Seq<ExtractedFile>, fs: Seq<(Seq<char>, Seq<u8>)>) -> bool {
    v.len() == fs.len() && forall|i: int| 0 <= i < fs.len() ==> file_is(#[trigger] v[i], fs[i])
}

pub open spec fn unpacked_files_is(r: Unpacked<Vec<ExtractedFile>>, m: Unpacked<Seq<(Seq<char>, Seq<u8>)>>) -> bool {
    match m {
        Unpacked::Val(fs) => r matches Unpacked::Val(v) && files_are(v@, fs),
        Unpacked::Fail(e) => r == Unpacked::<Vec<ExtractedFile>>::Fail(e),
        Unpacked::Overflow => r is Overflow,
    }
}

/// Extract every file of the Enigma Virtual Box VFS packed into the PE
/// image `raw`.
pub fn unpack_image(raw: &[u8]) -> (r: Result<Vec<ExtractedFile>, EnigmaError>)
    requires
        pe_headers_readable(raw@),
        !(spec_unpack_image(raw@) is Overflow),
    ensures
        match spec_unpack_image(raw@) {
            Unpacked::Val(fs) => r is Ok && r->Ok_0@.len() == fs.len() && forall|i: int|
                0 <= i < fs.len() ==> file_is(#[trigger] r->Ok_0@[i], fs[i]),
            Unpacked::Fail(e) => r == Err::<Vec<ExtractedFile>, EnigmaError>(e),
            Unpacked::Overflow => false,
        },
{
    match unpack_outcome(raw) {
        Unpacked::Val(v) => Ok(v),
        Unpacked::Fail(e) => Err(e),
        Unpacked::Overflow => Err(EnigmaError::UnexpectedEof),
    }
}

/// [`unpack_image`] on any input: `None` where the reader would index
/// past the PE headers or an offset or length would overflow.
pub fn unpack_image_checked(raw: &[u8]) -> (r: Option<Result<Vec<ExtractedFile>, EnigmaError>>)
    ensures
        !pe_headers_readable(raw@) ==> r is None,
        pe_headers_readable(raw@) ==> match spec_unpack_image(raw@) {
            Unpacked::Val(fs) => r matches Some(Ok(v)) && files_are(v@, fs),
            Unpacked::Fail(e) => r == Some(Err::<Vec<ExtractedFile>, EnigmaError>(e)),
            Unpacked::Overflow => r is None,
        },
{
    if !PeInfo::headers_readable(raw) {
        return None;
    }
    match unpack_outcome(raw) {
        Unpacked::Val(v) => Some(Ok(v)),
        Unpacked::Fail(e) => Some(Err(e)),
        Unpacked::Overflow => None,
    }
}

fn unpack_outcome(raw: &[u8]) -> (r: Unpacked<Vec<ExtractedFile>>)
    requires
        pe_headers_readable(raw@),
    ensures
        unpacked_files_is(r, spec_unpack_image(raw@)),
{
    let pe = match PeInfo::parse(raw) {
        Ok(p) => p,
        Err(e) => return Unpacked::Fail(e),
    };
    let mut k: usize = 0;
    let mut found: Option<usize> = None;
    while k < pe.sections.len()
        invariant_except_break
            found is None,
            enigma1_from(raw@, 0) == enigma1_from(raw@, k as int),
        invariant
            pe_signature_ok(raw@),
            pe_describes(pe, raw@),
            k <= pe.sections@.len(),
        ensures
            match found {
                None => enigma1_from(raw@, 0) is None,
                Some(i) => enigma1_from(raw@, 0) == Some(i as int) && i < pe.sections@.len(),
            },
        decreases pe.sections.len() - k,
    {
        assert(crate::pe::section_is(pe.sections@[k as int], raw@, section_table_start(raw@) + 40 * k));
        if str_eq(pe.sections[k].name.as_str(), ".enigma1") {
            found = Some(k);
            break;
        }
        k = k + 1;
    }
    let idx = match found {
        Some(i) => i,
        None => return Unpacked::Fail(EnigmaError::NoEnigmaSection),
    };
    let sec = &pe.sections[idx];
    assert(crate::pe::section_is(*sec, raw@, section_table_start(raw@) + 40 * idx));
    let start = sec.raw_offset as u64;
    let end = start + sec.raw_size as u64;
    if end > raw.len() as u64 {
        return Unpacked::Fail(EnigmaError::UnexpectedEof);
    }
    let section = slice_range(raw, start as usize, end as usize);
    let magic: [u8; 4] = [0x45, 0x56, 0x42, 0];
    assert(magic@ == evb_magic());
    let m = match find_bytes(section, magic.as_slice()) {
        Some(m) => m,
        None => return Unpacked::Fail(EnigmaError::InvalidMagic),
    };
    let vfs = slice_range(section, m, section.len());
    if !vfs_offsets_fit_test(vfs) {
        return Unpacked::Overflow;
    }
    let entries = match parse_vfs_tree(vfs) {
        Ok(es) => es,
        Err(e) => return Unpacked::Fail(e),
    };
    let ghost es = spec_vfs_tree(vfs@)->Ok_0;
    let base: u64 = start + m as u64;
    extract_all(raw, base, &entries, Ghost(es))
}

/// Extract the files listed in `entries` (see [`spec_extract`]).
fn extract_all(raw: &[u8], base: u64, entries: &Vec<VfsEntry>, Ghost(es): Ghost<Seq<EntrySpec>>) -> (r: Unpacked<
    Vec<ExtractedFile>,
>)
    requires
        entries@.len() == es.len(),
        forall|j: int| 0 <= j < es.len() ==> (#[trigger] entries@[j]).is_entry(es[j]),
    ensures
        unpacked_files_is(r, spec_extract(raw@, base as int, es)),
{
    let ghost total = spec_extract(raw@, base as int, es);
    let mut results: Vec<ExtractedFile> = Vec::new();
    let ghost mut done: Seq<(Seq<char>, Seq<u8>)> = Seq::empty();
    let mut i: usize = 0;
    assert(es.subrange(0, es.len() as int) =~= es);
    assert(done + total->Val_0 =~= total->Val_0);
    while i < entries.len()
        invariant
            i <= entries@.len(),
            entries@.len() == es.len(),
            forall|j: int| 0 <= j < es.len() ==> (#[trigger] entries@[j]).is_entry(es[j]),
            total == spec_extract(raw@, base as int, es),
            results@.len() == done.len(),
            forall|j: int| 0 <= j < done.len() ==> file_is(#[trigger] results@[j], done[j]),
            match spec_extract(raw@, base as int, es.subrange(i as int, es.len() as int)) {
                Unpacked::Val(rest) => total == Unpacked::Val(done + rest),
                Unpacked::Fail(x) => total == Unpacked::<Seq<(Seq<char>, Seq<u8>)>>::Fail(x),
                Unpacked::Overflow => total is Overflow,
            },
        decreases entries.len() - i,
    {
        let e = &entries[i];
        let ghost rest = es.subrange(i as int, es.len() as int);
        assert(rest[0] == es[i as int]);
        assert(rest.drop_first() =~= es.subrange(i + 1, es.len() as int));
        let data = match extract_one(raw, base, e, Ghost(es[i as int])) {
            Unpacked::Val(Some(d)) => d,
            Unpacked::Val(None) => {
                i = i + 1;
                continue;
            },
            Unpacked::Fail(x) => return Unpacked::Fail(x),
            Unpacked::Overflow => return Unpacked::Overflow,
        };
        let ghost item = (e.path@, data@);
        proof {
            match spec_extract(raw@, base as int, rest.drop_first()) {
                Unpacked::Val(r) => {
                    assert(done + (seq![item] + r) =~= done.push(item) + r);
                },
                _ => {},
            }
            done = done.push(item);
        }
        results.push(ExtractedFile { path: e.path.clone(), data });
        i = i + 1;
    }
    proof {
        assert(es.subrange(i as int, es.len() as int) =~= Seq::<EntrySpec>::empty());
        assert(done + Seq::<(Seq<char>, Seq<u8>)>::empty() =~= done);
    }
    Unpacked::Val(results)
}

/// Total size of the first `k` chunks.
pub open spec fn size_sum(sizes: Seq<u32>, k: int) -> int
    decreases k,
{
    if k <= 0 || k > sizes.len() {
        0
    } else {
        size_sum(sizes, k - 1) + sizes[k - 1]
    }
}

/// The `k`-th chunk of `data` from `pos`: it starts where the chunks
/// before it end.
pub open spec fn chunk_slice(data: Seq<u8>, sizes: Seq<u32>, pos: int, k: int) -> Seq<u8> {
    data.subrange(pos + size_sum(sizes, k), pos + size_sum(sizes, k + 1))
}

proof fn lemma_size_sum_shift(sizes: Seq<u32>, k: int)
    requires
        sizes.len() > 0,
        0 <= k < sizes.len(),
    ensures
        size_sum(sizes, k + 1) == sizes[0] + size_sum(sizes.drop_first(), k),
    decreases k,
{
    assert(size_sum(sizes, 0) == 0);
    assert(size_sum(sizes.drop_first(), 0) == 0);
    if k > 0 {
        lemma_size_sum_shift(sizes, k - 1);
        assert(sizes.drop_first()[k - 1] == sizes[k]);
        assert(size_sum(sizes.drop_first(), k) == size_sum(sizes.drop_first(), k - 1) + sizes.drop_first()[k - 1]);
        assert(size_sum(sizes, k + 1) == size_sum(sizes, k) + sizes[k]);
    } else {
        assert(size_sum(sizes, 1) == size_sum(sizes, 0) + sizes[0]);
    }
}

/// Chunks are consecutive: when a file's chunks all decompress, chunk `k`
/// is the slice starting at the total size of the chunks before it, every
/// chunk decompresses on its own, and the file is the concatenation of
/// those decompressions in order.
pub proof fn law_chunks_are_consecutive(data: Seq<u8>, sizes: Seq<u32>, pos: int)
    ensures
        spec_chunks(data, sizes, pos) matches Unpacked::Val(out) ==> {
            &&& forall|k: int| 0 <= k < sizes.len() ==> pos + size_sum(sizes, k + 1) <= data.len()
                && spec_decompress(#[trigger] chunk_slice(data, sizes, pos, k), false) is Done
            &&& out == Seq::new(
                sizes.len(),
                |k: int| spec_decompress(chunk_slice(data, sizes, pos, k), false)->Done_0,
            ).flatten()
        },
    decreases sizes.len(),
{
    if sizes.len() > 0 {
        let tail = sizes.drop_first();
        let p1 = pos + sizes[0];
        law_chunks_are_consecutive(data, tail, p1);
        if let Unpacked::Val(out) = spec_chunks(data, sizes, pos) {
            assert(size_sum(sizes, 1) == sizes[0]) by {
                assert(size_sum(sizes, 0) == 0);
            }
            assert(size_sum(sizes, 0) == 0);
            assert forall|k: int| 0 <= k < sizes.len() implies pos + size_sum(sizes, k + 1) <= data.len()
                && spec_decompress(#[trigger] chunk_slice(data, sizes, pos, k), false) is Done by {
                if k > 0 {
                    lemma_size_sum_shift(sizes, k);
                    lemma_size_sum_shift(sizes, k - 1);
                    assert(chunk_slice(data, sizes, pos, k) == chunk_slice(data, tail, p1, k - 1));
                }
            }
            let f = |k: int| spec_decompress(chunk_slice(data, sizes, pos, k), false)->Done_0;
            let g = |k: int| spec_decompress(chunk_slice(data, tail, p1, k), false)->Done_0;
            let whole = Seq::new(sizes.len(), f);
            assert(whole.drop_first() =~= Seq::new(tail.len(), g)) by {
                assert forall|k: int| 0 <= k < tail.len() implies whole.drop_first()[k] == Seq::new(tail.len(), g)[k] by {
                    lemma_size_sum_shift(sizes, k + 1);
                    lemma_size_sum_shift(sizes, k);
                    assert(chunk_slice(data, sizes, pos, k + 1) == chunk_slice(data, tail, p1, k));
                }
            }
            assert(whole.first() == f(0));
        }
    }
}

} // verus!
