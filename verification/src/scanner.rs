//! Scanner for SWF files embedded in a projector executable, and the reader
//! of the ActionScript (ABC) string constants they carry.
use vstd::prelude::*;
use crate::bytes::{
    before_nul, copy_range, nul_prefix_len, read_u16_le, read_u32_le, slice_range, spec_u16_le,
    spec_u32_le, string_from_utf8_lossy, utf8_lossy,
};
use crate::kk::string_from_utf8;
use crate::swf::{
    spec_to_fws,
    classify_swf, read_frame_count, sig_is, spec_classify, spec_frame_count,
    zlib_decompress, zlib_inflate, FwsResult, SwfError,
};

verus! {

/// A validated SWF found inside a binary.
#[derive(Debug, Clone)]
pub struct SwfEntry {
    pub offset: u64,
    pub signature: &'static str,
    pub version: u8,
    pub declared_length: u32,
    pub classification: &'static str,
    pub frame_count: u16,
    pub raw_bytes: Vec<u8>,
}

/// Scanner over the bytes of a projector executable.
pub struct ExeScanner {
    data: Vec<u8>,
}

impl View for ExeScanner {
    type V = Seq<u8>;

    closed spec fn view(&self) -> Seq<u8> {
        self.data@
    }
}

/// Uncompressed form of a candidate SWF: `CWS`/`cws` (longer than its
/// 8-byte header) inflated behind `FWS` and the candidate's bytes 3..8,
/// `ZWS`/`zws` refused, anything else kept as it is.
pub open spec fn spec_fws_of(h: Seq<u8>) -> FwsResult {
    if h.len() < 3 {
        FwsResult::Fws(h)
    } else if (sig_is(h, 0x43, 0x57, 0x53) || sig_is(h, 0x63, 0x77, 0x73)) && h.len() > 8 {
        match zlib_decompress(h.subrange(8, h.len() as int)) {
            None => FwsResult::Zlib,
            Some(body) => FwsResult::Fws(seq![0x46u8, 0x57u8, 0x53u8] + h.subrange(3, 8) + body),
        }
    } else if sig_is(h, 0x5a, 0x57, 0x53) || sig_is(h, 0x7a, 0x77, 0x73) {
        FwsResult::Zws
    } else {
        FwsResult::Fws(h)
    }
}

impl ExeScanner {
    /// A scanner over `data`.
    pub fn from_bytes(data: Vec<u8>) -> (s: Self)
        ensures
            s@ == data@,
    {
        ExeScanner { data }
    }

    /// Decompress a `CWS` candidate to `FWS` and read its frame count.
    fn decompress_and_read_frames(&self, data: &[u8]) -> (r: Result<(Vec<u8>, u16), SwfError>)
        ensures
            match spec_fws_of(data@) {
                FwsResult::Fws(f) => r matches Ok((v, n)) && v@ == f && n == spec_frame_count(f),
                FwsResult::Zlib => r == Err::<(Vec<u8>, u16), SwfError>(SwfError::Zlib),
                _ => r == Err::<(Vec<u8>, u16), SwfError>(SwfError::UnsupportedZws),
            },
    {
        if data.len() < 3 {
            let v = copy_range(data, 0, data.len());
            assert(v@ =~= data@);
            let n = read_frame_count(v.as_slice());
            return Ok((v, n));
        }
        let fws = if ((data[0] == 0x43 && data[1] == 0x57 && data[2] == 0x53) || (data[0] == 0x63
            && data[1] == 0x77 && data[2] == 0x73)) && data.len() > 8 {
            let body = match zlib_inflate(slice_range(data, 8, data.len())) {
                Some(b) => b,
                None => return Err(SwfError::Zlib),
            };
            let mut out: Vec<u8> = Vec::new();
            out.push(0x46);
            out.push(0x57);
            out.push(0x53);
            crate::bytes::append_bytes(&mut out, slice_range(data, 3, 8));
            crate::bytes::append_bytes(&mut out, body.as_slice());
            assert(out@ =~= seq![0x46u8, 0x57u8, 0x53u8] + data@.subrange(3, 8) + body@);
            out
        } else if (data[0] == 0x5a && data[1] == 0x57 && data[2] == 0x53) || (data[0] == 0x7a
            && data[1] == 0x77 && data[2] == 0x73) {
            return Err(SwfError::UnsupportedZws);
        } else {
            let v = copy_range(data, 0, data.len());
            assert(v@ =~= data@);
            v
        };
        let n = read_frame_count(fws.as_slice());
        Ok((fws, n))
    }
}

/// The `e_lfanew` field of a DOS header (0 when the file is shorter than
/// the header).
pub open spec fn spec_pe_offset(data: Seq<u8>) -> u32 {
    if data.len() < 0x40 {
        0
    } else {
        spec_u32_le(data, 0x3C)
    }
}

fn pe_offset(data: &[u8]) -> (r: u32)
    ensures
        r == spec_pe_offset(data@),
{
    if data.len() < 0x40 {
        return 0;
    }
    read_u32_le(data, 0x3C)
}

/// Number of zero bytes at the start of `s`.
pub open spec fn leading_zeros(s: Seq<u8>) -> int
    decreases s.len(),
{
    if s.len() > 0 && s[0] == 0 {
        1 + leading_zeros(s.drop_first())
    } else {
        0
    }
}

/// An 8-byte section name that is UTF-8 text and, past leading NULs,
/// starts with `UPX`.
pub open spec fn upx_name(name: Seq<u8>) -> bool {
    let k = leading_zeros(name);
    &&& vstd::utf8::valid_utf8(name)
    &&& k + 3 <= name.len()
    &&& name[k] == 0x55 && name[k + 1] == 0x50 && name[k + 2] == 0x58
}

/// Offset of the `i`-th section header of a PE32 file whose `PE` header
/// stands at `po`.
pub open spec fn upx_section_at(po: int, i: int) -> int {
    po + 0xF8 + i * 40
}

/// A PE32 file (valid `PE\0\0` signature at `e_lfanew`, which is not 0)
/// one of whose first three section headers (those that lie wholly in the
/// file) has a name starting with `UPX`.
pub open spec fn spec_is_upx_packed(data: Seq<u8>) -> bool {
    let po = spec_pe_offset(data) as int;
    &&& po != 0
    &&& po + 4 <= data.len()
    &&& data[po] == 0x50 && data[po + 1] == 0x45 && data[po + 2] == 0 && data[po + 3] == 0
    &&& exists|i: int|
        0 <= i < 3 && upx_section_at(po, i) + 8 <= data.len() && upx_name(
            data.subrange(upx_section_at(po, i), upx_section_at(po, i) + 8),
        )
}

fn leading_zero_count(s: &[u8]) -> (k: usize)
    ensures
        k == leading_zeros(s@),
{
    let mut k: usize = 0;
    assert(s@.subrange(0, s@.len() as int) =~= s@);
    while k < s.len() && s[k] == 0
        invariant
            k <= s@.len(),
            leading_zeros(s@) == k + leading_zeros(s@.subrange(k as int, s@.len() as int)),
        decreases s.len() - k,
    {
        assert(s@.subrange(k as int, s@.len() as int).drop_first() =~= s@.subrange(
            k + 1,
            s@.len() as int,
        ));
        k = k + 1;
    }
    proof {
        let t = s@.subrange(k as int, s@.len() as int);
        assert(t.len() == 0 || t[0] != 0);
    }
    k
}

fn is_upx_name(name: &[u8]) -> (r: bool)
    ensures
        r == upx_name(name@),
{
    let k = leading_zero_count(name);
    let text = string_from_utf8(copy_range(name, 0, name.len()));
    proof {
        assert(name@.subrange(0, name@.len() as int) =~= name@);
    }
    if text.is_none() {
        return false;
    }
    if name.len() < 3 || k > name.len() - 3 {
        return false;
    }
    name[k] == 0x55 && name[k + 1] == 0x50 && name[k + 2] == 0x58
}

/// Whether a PE32 file is UPX-packed, by the names of its first sections.
pub fn is_upx_packed(data: &[u8]) -> (r: bool)
    ensures
        r == spec_is_upx_packed(data@),
{
    let po = pe_offset(data) as usize;
    if po == 0 || data.len() < 4 || po > data.len() - 4 {
        return false;
    }
    if !(data[po] == 0x50 && data[po + 1] == 0x45 && data[po + 2] == 0 && data[po + 3] == 0) {
        return false;
    }
    let mut i: usize = 0;
    while i < 3
        invariant
            i <= 3,
            po == spec_pe_offset(data@) as int,
            po + 4 <= data@.len(),
            po != 0,
            data@[po as int] == 0x50 && data@[po + 1] == 0x45 && data@[po + 2] == 0 && data@[po + 3] == 0,
            forall|j: int|
                0 <= j < i ==> !(upx_section_at(po as int, j) + 8 <= data@.len() && upx_name(
                    data@.subrange(upx_section_at(po as int, j), upx_section_at(po as int, j) + 8),
                )),
        decreases 3 - i,
    {
        let need: usize = 0xF8 + i * 40 + 8;
        if data.len() < need || po > data.len() - need {
            assert forall|j: int|
                0 <= j < 3 implies !(upx_section_at(po as int, j) + 8 <= data@.len() && upx_name(
                data@.subrange(upx_section_at(po as int, j), upx_section_at(po as int, j) + 8),
            )) by {
                if j >= i {
                    assert(upx_section_at(po as int, j) + 8 >= po + need);
                }
            }
            return false;
        }
        let off = po + 0xF8 + i * 40;
        if is_upx_name(slice_range(data, off, off + 8)) {
            assert(upx_section_at(po as int, i as int) == off as int);
            assert(0 <= i < 3 && upx_section_at(po as int, i as int) + 8 <= data@.len() && upx_name(
                data@.subrange(upx_section_at(po as int, i as int), upx_section_at(po as int, i as int) + 8),
            ));
            return true;
        }
        i = i + 1;
    }
    false
}

/// The signature at `i` when it is one the scanner looks for.
pub open spec fn scan_sig(d: Seq<u8>, i: int) -> Option<&'static str> {
    if sig_is(d.subrange(i, i + 3), 0x46, 0x57, 0x53) {
        Some("FWS")
    } else if sig_is(d.subrange(i, i + 3), 0x43, 0x57, 0x53) {
        Some("CWS")
    } else if sig_is(d.subrange(i, i + 3), 0x5a, 0x57, 0x53) {
        Some("ZWS")
    } else {
        None
    }
}

/// A plausible SWF header at `i`: signature, version 1..=50 and a declared
/// length of 100..=200 000 000 bytes.
pub open spec fn header_ok(d: Seq<u8>, i: int) -> bool {
    &&& 0 <= i && i + 8 <= d.len()
    &&& scan_sig(d, i) is Some
    &&& 1 <= d[i + 3] <= 50
    &&& 100 <= spec_u32_le(d, i + 4) <= 200_000_000
}

/// End of the SWF whose header stands at `i`: its declared length, cut to
/// the data.
pub open spec fn swf_end(d: Seq<u8>, i: int) -> int {
    let e = i + spec_u32_le(d, i + 4);
    if e < d.len() {
        e
    } else {
        d.len() as int
    }
}

/// The bits per field of the stage rectangle lie in 4..=19.
pub open spec fn nbits_ok(d: Seq<u8>, i: int) -> bool {
    4 <= (d[i + 8] >> 3u8) <= 19
}

/// Offsets of the SWFs found by a scan from `i`; `None` where the scan
/// would index past the data (a plausible header in the last 8 bytes).
/// After a SWF is found the scan resumes at its end.
pub open spec fn spec_scan_from(d: Seq<u8>, i: int) -> Option<Seq<int>>
    decreases d.len() - i,
{
    if i < 0 || i + 8 > d.len() {
        Some(Seq::empty())
    } else if !header_ok(d, i) {
        spec_scan_from(d, i + 1)
    } else if i + 8 == d.len() {
        None
    } else if !nbits_ok(d, i) {
        spec_scan_from(d, i + 1)
    } else if !(spec_fws_of(d.subrange(i, swf_end(d, i))) is Fws) {
        spec_scan_from(d, i + 1)
    } else {
        match spec_scan_from(d, swf_end(d, i)) {
            None => None,
            Some(rest) => Some(seq![i] + rest),
        }
    }
}

/// `e` describes the SWF whose header stands at `i`.
pub open spec fn entry_is(e: SwfEntry, d: Seq<u8>, i: int) -> bool {
    let h = d.subrange(i, swf_end(d, i));
    &&& e.offset == i
    &&& scan_sig(d, i) == Some(e.signature)
    &&& e.version == d[i + 3]
    &&& e.declared_length == spec_u32_le(d, i + 4)
    &&& spec_fws_of(h) == FwsResult::Fws(e.raw_bytes@)
    &&& e.frame_count == spec_frame_count(e.raw_bytes@)
    &&& e.classification == spec_classify(e.frame_count, h.len() as usize)
}

pub open spec fn entries_are(v: Seq<SwfEntry>, d: Seq<u8>, offs: Seq<int>) -> bool {
    v.len() == offs.len() && forall|k: int| 0 <= k < v.len() ==> entry_is(#[trigger] v[k], d, offs[k])
}

pub open spec fn prepend(pre: Seq<int>, o: Option<Seq<int>>) -> Option<Seq<int>> {
    match o {
        None => None,
        Some(s) => Some(pre + s),
    }
}

fn signature_at(d: &[u8], i: usize) -> (r: Option<&'static str>)
    requires
        i + 3 <= d@.len(),
    ensures
        r == scan_sig(d@, i as int),
{
    if d[i] == 0x46 && d[i + 1] == 0x57 && d[i + 2] == 0x53 {
        Some("FWS")
    } else if d[i] == 0x43 && d[i + 1] == 0x57 && d[i + 2] == 0x53 {
        Some("CWS")
    } else if d[i] == 0x5a && d[i + 1] == 0x57 && d[i + 2] == 0x53 {
        Some("ZWS")
    } else {
        None
    }
}

impl ExeScanner {
    /// The scan itself; `None` where the scan would index past the data.
    fn scan_core(&self) -> (r: Option<Vec<SwfEntry>>)
        ensures
            match spec_scan_from(self@, 0) {
                None => r is None,
                Some(offs) => r matches Some(v) && entries_are(v@, self@, offs),
            },
    {
        let data = self.data.as_slice();
        let ghost d = self@;
        let mut swfs: Vec<SwfEntry> = Vec::new();
        let ghost mut pre: Seq<int> = Seq::empty();
        let mut i: usize = 0;
        assert(pre + Seq::<int>::empty() =~= Seq::<int>::empty());
        assert(forall|s: Seq<int>| Seq::<int>::empty() + s =~= s);
        while data.len() >= 8 && i <= data.len() - 8
            invariant
                d == data@,
                d == self@,
                i <= data@.len(),
                spec_scan_from(d, 0) == prepend(pre, spec_scan_from(d, i as int)),
                entries_are(swfs@, d, pre),
            decreases data.len() - i,
        {
            let ghost here = spec_scan_from(d, i as int);
            let sig = match signature_at(data, i) {
                Some(s) => s,
                None => {
                    i = i + 1;
                    continue;
                },
            };
            let version = data[i + 3];
            if !(1 <= version && version <= 50) {
                i = i + 1;
                continue;
            }
            let declared_length = read_u32_le(data, i + 4);
            if !(100 <= declared_length && declared_length <= 200_000_000) {
                i = i + 1;
                continue;
            }
            assert(header_ok(d, i as int));
            let end: usize = if (declared_length as usize) < data.len() - i {
                i + declared_length as usize
            } else {
                data.len()
            };
            assert(end == swf_end(d, i as int));
            if i + 8 == data.len() {
                assert(spec_scan_from(d, i as int) is None);
                return None;
            }
            let nbits = data[i + 8] >> 3;
            if !(4 <= nbits && nbits <= 19) {
                i = i + 1;
                continue;
            }
            let header = slice_range(data, i, end);
            let (fws_bytes, frame_count) = match self.decompress_and_read_frames(header) {
                Ok(v) => v,
                Err(_) => {
                    i = i + 1;
                    continue;
                },
            };
            let classification = classify_swf(frame_count, header.len());
            let entry = SwfEntry {
                offset: i as u64,
                signature: sig,
                version,
                declared_length,
                classification,
                frame_count,
                raw_bytes: fws_bytes,
            };
            assert(entry_is(entry, d, i as int));
            proof {
                match spec_scan_from(d, end as int) {
                    None => {},
                    Some(rest) => {
                        assert(pre + (seq![i as int] + rest) =~= pre.push(i as int) + rest);
                    },
                }
                pre = pre.push(i as int);
            }
            swfs.push(entry);
            i = end;
        }
        proof {
            assert(pre + Seq::<int>::empty() =~= pre);
        }
        Some(swfs)
    }

    /// Scan the executable for embedded SWF files: at every offset with a
    /// plausible header (`FWS`/`CWS`/`ZWS`, version 1..=50, declared
    /// length 100..=200 000 000, rectangle bits 4..=19) whose body
    /// decompresses, record it and resume past its end.
    pub fn scan_swfs(&self) -> (r: Result<Vec<SwfEntry>, SwfError>)
        requires
            spec_scan_from(self@, 0) is Some,
        ensures
            r matches Ok(v) && entries_are(v@, self@, spec_scan_from(self@, 0)->0),
    {
        match self.scan_core() {
            Some(v) => Ok(v),
            None => Ok(Vec::new()),
        }
    }

    /// [`ExeScanner::scan_swfs`] on any data: `None` where the scan would
    /// index past the data.
    pub fn scan_swfs_checked(&self) -> (r: Option<Vec<SwfEntry>>)
        ensures
            match spec_scan_from(self@, 0) {
                None => r is None,
                Some(offs) => r matches Some(v) && entries_are(v@, self@, offs),
            },
    {
        self.scan_core()
    }
}

// ---------------------------------------------------------------------------
// ABC string constants
// ---------------------------------------------------------------------------

/// A variable-length unsigned integer (7 bits per byte, low bits first,
/// high bit set on all but the last byte, at most 5 bytes) read at `p`,
/// with the position after it; `k` bytes were read so far into `val`.
pub open spec fn u30_from(buf: Seq<u8>, p: int, k: nat, val: u32) -> Option<(u32, int)>
    decreases 4 - k,
{
    if p < 0 || p >= buf.len() {
        None
    } else {
        let b = buf[p];
        let v2 = val | (((b & 0x7fu8) as u32) << ((7 * k) as u32));
        if b & 0x80u8 == 0 {
            Some((v2, p + 1))
        } else if k >= 4 {
            None
        } else {
            u30_from(buf, p + 1, k + 1, v2)
        }
    }
}

/// `n` variable-length integers skipped from `pos`.
pub open spec fn skip_varints(abc: Seq<u8>, pos: int, n: nat) -> Option<int>
    decreases n,
{
    if n == 0 {
        Some(pos)
    } else {
        match u30_from(abc, pos, 0, 0) {
            None => None,
            Some((_, q)) => skip_varints(abc, q, (n - 1) as nat),
        }
    }
}

/// The last `n` of the int, uint and double pools skipped from `pos`: each
/// is a count `c` followed by `c - 1` entries, variable-length integers for
/// the int and uint pools and 8 bytes each for the double pool (the last).
pub open spec fn skip_pools(abc: Seq<u8>, pos: int, n: nat) -> Option<int>
    decreases n,
{
    if n == 0 {
        Some(pos)
    } else {
        match u30_from(abc, pos, 0, 0) {
            None => None,
            Some((c, q)) => {
                let m: nat = if c > 0 {
                    (c - 1) as nat
                } else {
                    0
                };
                let next = if n == 1 {
                    if q + 8 * m > usize::MAX {
                        None
                    } else {
                        Some(q + 8 * m)
                    }
                } else {
                    skip_varints(abc, q, m)
                };
                match next {
                    None => None,
                    Some(p) => skip_pools(abc, p, (n - 1) as nat),
                }
            },
        }
    }
}

/// `n` length-prefixed strings read from `pos`.
pub open spec fn pool_strings(abc: Seq<u8>, pos: int, n: nat) -> Option<Seq<Seq<char>>>
    decreases n,
{
    if n == 0 {
        Some(Seq::empty())
    } else {
        match u30_from(abc, pos, 0, 0) {
            None => None,
            Some((l, q)) => if q + l > abc.len() {
                None
            } else {
                match pool_strings(abc, q + l, (n - 1) as nat) {
                    None => None,
                    Some(rest) => Some(seq![utf8_lossy(abc.subrange(q, q + l))] + rest),
                }
            },
        }
    }
}

/// The string constant pool of an ABC block: after the 4 version bytes
/// and the int, uint and double pools, a count `c` and `c - 1` strings
/// (none for a count of 0, the block refused above 10 000 000).
pub open spec fn spec_abc_pool(abc: Seq<u8>) -> Option<Seq<Seq<char>>> {
    if abc.len() < 4 {
        None
    } else {
        match skip_pools(abc, 4, 3) {
            None => None,
            Some(p) => match u30_from(abc, p, 0, 0) {
                None => None,
                Some((c, q)) => if c == 0 {
                    Some(Seq::empty())
                } else if c > 10_000_000 {
                    None
                } else {
                    pool_strings(abc, q, (c - 1) as nat)
                },
            },
        }
    }
}

pub open spec fn strings_are(v: Seq<String>, m: Seq<Seq<char>>) -> bool {
    v.len() == m.len() && forall|k: int| 0 <= k < v.len() ==> (#[trigger] v[k])@ == m[k]
}

pub open spec fn prepend_strs(pre: Seq<Seq<char>>, o: Option<Seq<Seq<char>>>) -> Option<
    Seq<Seq<char>>,
> {
    match o {
        None => None,
        Some(s) => Some(pre + s),
    }
}

fn read_u30(buf: &[u8], p: &mut usize) -> (r: Option<u32>)
    ensures
        match u30_from(buf@, *old(p) as int, 0, 0) {
            None => r is None,
            Some((v, q)) => r == Some(v) && *final(p) == q,
        },
{
    let mut pos: usize = *p;
    let mut val: u32 = 0;
    let mut shift: u32 = 0;
    let ghost mut k: nat = 0;
    loop
        invariant
            k <= 4,
            shift == 7 * k,
            u30_from(buf@, *old(p) as int, 0, 0) == u30_from(buf@, pos as int, k, val),
        decreases 4 - k,
    {
        if pos >= buf.len() {
            return None;
        }
        let b = buf[pos];
        pos = pos + 1;
        val = val | (((b & 0x7f) as u32) << shift);
        if b & 0x80 == 0 {
            *p = pos;
            return Some(val);
        }
        if shift + 7 > 28 {
            return None;
        }
        shift = shift + 7;
        proof {
            k = k + 1;
        }
    }
}

/// Skip `n` variable-length integers from `pos`.
fn skip_varints_exec(abc: &[u8], pos: usize, n: u32) -> (r: Option<usize>)
    ensures
        match skip_varints(abc@, pos as int, n as nat) {
            None => r is None,
            Some(q) => r matches Some(x) && x as int == q,
        },
{
    let mut p: usize = pos;
    let mut k: u32 = 0;
    while k < n
        invariant
            k <= n,
            skip_varints(abc@, pos as int, n as nat) == skip_varints(abc@, p as int, (n - k) as nat),
        decreases n - k,
    {
        let _ = read_u30(abc, &mut p)?;
        k = k + 1;
    }
    Some(p)
}

/// Parse an ABC (ActionScript bytecode) block and return its string
/// constant pool; `None` when the block is malformed.
pub fn parse_abc_string_pool(abc: &[u8]) -> (r: Option<Vec<String>>)
    ensures
        match spec_abc_pool(abc@) {
            None => r is None,
            Some(m) => r matches Some(v) && strings_are(v@, m),
        },
{
    if abc.len() < 4 {
        return None;
    }
    let mut pos: usize = 4;
    let mut j: usize = 0;
    while j < 3
        invariant
            j <= 3,
            abc@.len() >= 4,
            skip_pools(abc@, 4, 3) == skip_pools(abc@, pos as int, (3 - j) as nat),
        decreases 3 - j,
    {
        let ghost p0 = pos as int;
        let count = read_u30(abc, &mut pos)?;
        let ghost q = pos as int;
        assert(u30_from(abc@, p0, 0, 0) == Some((count, q)));
        let m: u32 = if count > 0 {
            count - 1
        } else {
            0
        };
        if j == 2 {
            let skip = match (m as usize).checked_mul(8) {
                Some(v) => v,
                None => {
                    assert(skip_pools(abc@, p0, 1) is None);
                    return None;
                },
            };
            pos = match pos.checked_add(skip) {
                Some(v) => v,
                None => {
                    assert(skip_pools(abc@, p0, 1) is None);
                    return None;
                },
            };
            assert(skip_pools(abc@, p0, 1) == skip_pools(abc@, pos as int, 0));
        } else {
            pos = skip_varints_exec(abc, pos, m)?;
            assert(skip_pools(abc@, p0, (3 - j) as nat) == skip_pools(abc@, pos as int, (3 - j - 1) as nat));
        }
        j = j + 1;
    }
    let str_count = read_u30(abc, &mut pos)? as usize;
    if str_count == 0 {
        return Some(Vec::new());
    }
    if str_count > 10_000_000 {
        return None;
    }
    let mut strings: Vec<String> = Vec::new();
    let ghost mut done: Seq<Seq<char>> = Seq::empty();
    let mut n: usize = 1;
    assert(forall|t: Seq<Seq<char>>| Seq::<Seq<char>>::empty() + t =~= t);
    while n < str_count
        invariant
            1 <= n <= str_count,
            spec_abc_pool(abc@) == prepend_strs(done, pool_strings(abc@, pos as int, (str_count - n) as nat)),
            strings_are(strings@, done),
        decreases str_count - n,
    {
        let s_len = read_u30(abc, &mut pos)? as usize;
        if s_len > abc.len() || pos > abc.len() - s_len {
            return None;
        }
        let s = string_from_utf8_lossy(slice_range(abc, pos, pos + s_len));
        proof {
            let rest = pool_strings(abc@, (pos + s_len) as int, (str_count - n - 1) as nat);
            match rest {
                None => {},
                Some(t) => {
                    assert(done + (seq![s@] + t) =~= done.push(s@) + t);
                },
            }
            done = done.push(s@);
        }
        pos = pos + s_len;
        strings.push(s);
        n = n + 1;
    }
    proof {
        assert(done + Seq::<Seq<char>>::empty() =~= done);
    }
    Some(strings)
}

/// The bytes whose tags are walked: a `CWS` file as its uncompressed
/// `FWS` equivalent (`FWS`, its bytes 3..8, the inflated body) when the body
/// inflates, any other input as it is.
pub open spec fn abc_source(fws: Seq<u8>) -> Seq<u8> {
    if fws.len() > 8 && sig_is(fws, 0x43, 0x57, 0x53) {
        match zlib_decompress(fws.subrange(8, fws.len() as int)) {
            Some(b) => seq![0x46u8, 0x57u8, 0x53u8] + fws.subrange(3, 8) + b,
            None => fws,
        }
    } else {
        fws
    }
}

/// The constant pool strings of a block, none when it is malformed.
pub open spec fn pool_or_empty(abc: Seq<u8>) -> Seq<Seq<char>> {
    match spec_abc_pool(abc) {
        Some(v) => v,
        None => Seq::empty(),
    }
}

/// The strings of one tag: the constant pool of a `DoABC` (72) or
/// `DoABC2` (82) tag, whose ABC block follows 4 flag bytes and a
/// NUL-terminated name.
pub open spec fn tag_abc_strings(code: u16, tag: Seq<u8>) -> Seq<Seq<char>> {
    if (code == 72 || code == 82) && tag.len() >= 4 {
        let rest = tag.subrange(4, tag.len() as int);
        let k = before_nul(rest).len() as int;
        if k < rest.len() {
            pool_or_empty(rest.subrange(k + 1, rest.len() as int))
        } else {
            Seq::empty()
        }
    } else {
        Seq::empty()
    }
}

/// The strings of the tags from `pos` on; the walk stops at the first tag
/// whose header or body does not fit in the data.
pub open spec fn tag_strings(data: Seq<u8>, pos: int) -> Seq<Seq<char>>
    decreases data.len() - pos,
{
    if pos < 0 || pos + 2 > data.len() {
        Seq::empty()
    } else {
        let raw = spec_u16_le(data, pos);
        let code = raw >> 6u16;
        let short = (raw & 0x3Fu16) as int;
        if short == 0x3F && pos + 6 > data.len() {
            Seq::empty()
        } else {
            let p = if short == 0x3F {
                pos + 6
            } else {
                pos + 2
            };
            let l = if short == 0x3F {
                spec_u32_le(data, pos + 2) as int
            } else {
                short
            };
            if p + l > data.len() {
                Seq::empty()
            } else {
                tag_abc_strings(code, data.subrange(p, p + l)) + tag_strings(data, p + l)
            }
        }
    }
}

/// Position of the first tag, past the header, the stage rectangle, the
/// frame rate and the frame count.
pub open spec fn first_tag(data: Seq<u8>) -> int {
    8 + (5 + ((data[8] >> 3u8) as int) * 4 + 7) / 8 + 4
}

/// The walk would index past the data: the bytes walked are exactly 8 long.
pub open spec fn fws_walk_overruns(fws: Seq<u8>) -> bool {
    abc_source(fws).len() == 8
}

/// All ABC string constants of a SWF, tag by tag (nothing when the data
/// is shorter than 8 bytes or the rectangle bits lie outside 4..=19).
pub open spec fn spec_fws_strings(fws: Seq<u8>) -> Seq<Seq<char>> {
    let data = abc_source(fws);
    if data.len() <= 8 {
        Seq::empty()
    } else if !(4 <= (data[8] >> 3u8) <= 19) {
        Seq::empty()
    } else {
        tag_strings(data, first_tag(data))
    }
}

fn walk_tags(data: &[u8], start: usize) -> (out: Vec<String>)
    ensures
        strings_are(out@, tag_strings(data@, start as int)),
{
    let mut out: Vec<String> = Vec::new();
    let ghost mut done: Seq<Seq<char>> = Seq::empty();
    let mut pos: usize = start;
    assert(forall|t: Seq<Seq<char>>| Seq::<Seq<char>>::empty() + t =~= t);
    while pos <= data.len() && data.len() - pos >= 2
        invariant
            tag_strings(data@, start as int) == done + tag_strings(data@, pos as int),
            strings_are(out@, done),
        decreases data.len() - pos,
    {
        let tag_raw = read_u16_le(data, pos);
        let tag_code = tag_raw >> 6;
        let mut tag_len = (tag_raw & 0x3F) as usize;
        let mut p = pos + 2;
        if tag_len == 0x3F {
            if data.len() - p < 4 {
                assert(done + Seq::<Seq<char>>::empty() =~= done);
                return out;
            }
            tag_len = read_u32_le(data, p) as usize;
            p = p + 4;
        }
        if tag_len > data.len() - p {
            assert(done + Seq::<Seq<char>>::empty() =~= done);
            return out;
        }
        let tag = slice_range(data, p, p + tag_len);
        let ghost piece = tag_abc_strings(tag_code, tag@);
        let block: Option<&[u8]> = if (tag_code == 72 || tag_code == 82) && tag.len() >= 4 {
            let rest = slice_range(tag, 4, tag.len());
            let name_end = nul_prefix_len(rest);
            if name_end < rest.len() {
                Some(slice_range(rest, name_end + 1, rest.len()))
            } else {
                None
            }
        } else {
            None
        };
        if let Some(abc) = block {
            assert(piece == pool_or_empty(abc@));
            if let Some(mut strings) = parse_abc_string_pool(abc) {
                out.append(&mut strings);
                assert(strings_are(out@, done + piece));
            } else {
                assert(piece =~= Seq::<Seq<char>>::empty());
                assert(done + piece =~= done);
            }
        } else {
            assert(piece =~= Seq::<Seq<char>>::empty());
            assert(done + piece =~= done);
        }
        proof {
            assert(done + (piece + tag_strings(data@, (p + tag_len) as int)) =~= (done + piece)
                + tag_strings(data@, (p + tag_len) as int));
            done = done + piece;
        }
        pos = p + tag_len;
    }
    proof {
        assert(done + Seq::<Seq<char>>::empty() =~= done);
    }
    out
}

/// The bytes whose tags are walked (see [`abc_source`]).
fn source_of(fws: &[u8]) -> (r: Vec<u8>)
    ensures
        r@ == abc_source(fws@),
{
    assert(fws@.subrange(0, fws@.len() as int) =~= fws@);
    if fws.len() > 8 && fws[0] == 0x43 && fws[1] == 0x57 && fws[2] == 0x53 {
        match zlib_inflate(slice_range(fws, 8, fws.len())) {
            Some(body) => {
                let mut out: Vec<u8> = Vec::new();
                out.push(0x46);
                out.push(0x57);
                out.push(0x53);
                crate::bytes::append_bytes(&mut out, slice_range(fws, 3, 8));
                crate::bytes::append_bytes(&mut out, body.as_slice());
                assert(out@ =~= seq![0x46u8, 0x57u8, 0x53u8] + fws@.subrange(3, 8) + body@);
                out
            },
            None => copy_range(fws, 0, fws.len()),
        }
    } else {
        copy_range(fws, 0, fws.len())
    }
}

/// The tag walk of a SWF, `None` where the bytes walked are exactly 8
/// long (the rectangle byte would be read past the end).
fn strings_core(fws: &[u8]) -> (r: Option<Vec<String>>)
    ensures
        fws_walk_overruns(fws@) ==> r is None,
        !fws_walk_overruns(fws@) ==> (r matches Some(v) && strings_are(v@, spec_fws_strings(fws@))),
{
    let owned = source_of(fws);
    let data = owned.as_slice();
    if data.len() < 8 {
        return Some(Vec::new());
    }
    if data.len() == 8 {
        return None;
    }
    let nbits = data[8] >> 3;
    if !(4 <= nbits && nbits <= 19) {
        return Some(Vec::new());
    }
    let rect_bytes = (5 + (nbits as usize) * 4 + 7) / 8;
    let pos = 8 + rect_bytes + 4;
    Some(walk_tags(data, pos))
}

/// Extract the string constants of every `DoABC` / `DoABC2` tag of a SWF
/// (a `CWS` file is read as its uncompressed equivalent).
pub fn extract_strings_from_fws(fws: &[u8]) -> (r: Vec<String>)
    requires
        !fws_walk_overruns(fws@),
    ensures
        strings_are(r@, spec_fws_strings(fws@)),
{
    match strings_core(fws) {
        Some(v) => v,
        None => Vec::new(),
    }
}

/// [`extract_strings_from_fws`] on any input: `None` where the bytes
/// walked are exactly 8 long.
pub fn extract_strings_from_fws_checked(fws: &[u8]) -> (r: Option<Vec<String>>)
    ensures
        fws_walk_overruns(fws@) ==> r is None,
        !fws_walk_overruns(fws@) ==> (r matches Some(v) && strings_are(v@, spec_fws_strings(fws@))),
{
    strings_core(fws)
}

// ---------------------------------------------------------------------------
// Strings of a whole executable
// ---------------------------------------------------------------------------

/// Unicode lower case of a text.
pub uninterp spec fn lowercase(s: Seq<char>) -> Seq<char>;

/// `str::to_lowercase`: the Unicode lower case of `s`.  Stated: the result
/// is the named lower case of the text.
#[verifier::external_body]
pub(crate) fn str_to_lowercase(s: &str) -> (r: String)
    ensures
        r@ == lowercase(s@),
{
    s.to_lowercase()
}

/// The uncompressed bytes recorded for the SWF at `i`.
pub open spec fn entry_raw(d: Seq<u8>, i: int) -> Seq<u8> {
    match spec_fws_of(d.subrange(i, swf_end(d, i))) {
        FwsResult::Fws(v) => v,
        _ => Seq::empty(),
    }
}

/// The ABC strings of the SWFs at `offs`, one SWF after the other.
pub open spec fn scan_strings(d: Seq<u8>, offs: Seq<int>) -> Seq<Seq<char>>
    decreases offs.len(),
{
    if offs.len() == 0 {
        Seq::empty()
    } else {
        scan_strings(d, offs.drop_last()) + spec_fws_strings(entry_raw(d, offs.last()))
    }
}

/// `s` without repetitions, each item where it first occurs.
pub open spec fn dedup(s: Seq<Seq<char>>) -> Seq<Seq<char>>
    decreases s.len(),
{
    if s.len() == 0 {
        Seq::empty()
    } else {
        let d = dedup(s.drop_last());
        if d.contains(s.last()) {
            d
        } else {
            d.push(s.last())
        }
    }
}

/// The scan and the tag walks of every SWF found stay within the data.
pub open spec fn abc_scan_ok(d: Seq<u8>) -> bool {
    &&& spec_scan_from(d, 0) is Some
    &&& forall|k: int|
        0 <= k < spec_scan_from(d, 0)->0.len() ==> !fws_walk_overruns(
            #[trigger] entry_raw(d, spec_scan_from(d, 0)->0[k]),
        )
}

/// The distinct ABC strings of all SWFs of an executable, in the order in
/// which they are first met.
pub open spec fn spec_abc_strings(d: Seq<u8>) -> Seq<Seq<char>> {
    dedup(scan_strings(d, spec_scan_from(d, 0)->0))
}

/// `h` contains `n` as a contiguous run.
pub open spec fn contains_run(h: Seq<char>, n: Seq<char>) -> bool {
    exists|i: int| 0 <= i && i + n.len() <= h.len() && #[trigger] h.subrange(i, i + n.len()) == n
}

/// The first string whose lower case contains the lower case of `needle`.
pub open spec fn first_containing(m: Seq<Seq<char>>, needle: Seq<char>) -> Option<Seq<char>>
    decreases m.len(),
{
    if m.len() == 0 {
        None
    } else if contains_run(lowercase(m[0]), lowercase(needle)) {
        Some(m[0])
    } else {
        first_containing(m.drop_first(), needle)
    }
}

/// Whether `s` holds an item equal to `t`.
fn has_string(v: &Vec<String>, t: &String) -> (r: bool)
    ensures
        r == v@.map_values(|x: String| x@).contains(t@),
{
    let ghost m = v@.map_values(|x: String| x@);
    let mut i: usize = 0;
    while i < v.len()
        invariant
            i <= v@.len(),
            m == v@.map_values(|x: String| x@),
            forall|j: int| 0 <= j < i ==> m[j] != t@,
        decreases v.len() - i,
    {
        if crate::bytes::str_eq(v[i].as_str(), t.as_str()) {
            assert(m[i as int] == t@);
            return true;
        }
        i = i + 1;
    }
    false
}

/// Whether `h` holds `n` at `at`.
fn chars_at(h: &Vec<char>, n: &Vec<char>, at: usize) -> (r: bool)
    requires
        at + n@.len() <= h@.len(),
    ensures
        r == (h@.subrange(at as int, at + n@.len()) == n@),
{
    let mut j: usize = 0;
    while j < n.len()
        invariant
            j <= n@.len(),
            at + n@.len() <= h@.len(),
            h@.len() == h.len(),
            forall|k: int| 0 <= k < j ==> h@[at + k] == n@[k],
        decreases n.len() - j,
    {
        if h[at + j] != n[j] {
            assert(h@.subrange(at as int, at + n@.len())[j as int] != n@[j as int]);
            return false;
        }
        j = j + 1;
    }
    assert(h@.subrange(at as int, at + n@.len()) =~= n@);
    true
}

/// Whether `h` contains `n` as a contiguous run.
fn chars_contain(h: &Vec<char>, n: &Vec<char>) -> (r: bool)
    ensures
        r == contains_run(h@, n@),
{
    if n.len() > h.len() {
        return false;
    }
    let mut i: usize = 0;
    while i <= h.len() - n.len()
        invariant
            n@.len() <= h@.len(),
            i <= h@.len() - n@.len() + 1,
            forall|k: int| 0 <= k < i ==> #[trigger] h@.subrange(k, k + n@.len()) != n@,
        decreases h.len() - n.len() + 1 - i,
    {
        if chars_at(h, n, i) {
            return true;
        }
        if i == h.len() - n.len() {
            return false;
        }
        i = i + 1;
    }
    false
}

pub open spec fn string_views(v: Seq<String>) -> Seq<Seq<char>> {
    v.map_values(|x: String| x@)
}

/// The distinct ABC strings of an executable, `None` where the scan or a
/// tag walk would index past the data (see [`abc_scan_ok`]).
fn abc_strings_core(raw_exe: &[u8]) -> (r: Option<Vec<String>>)
    ensures
        !abc_scan_ok(raw_exe@) ==> r is None,
        abc_scan_ok(raw_exe@) ==> (r matches Some(v) && strings_are(v@, spec_abc_strings(raw_exe@))),
{
    let scanner = ExeScanner::from_bytes(copy_range(raw_exe, 0, raw_exe.len()));
    assert(raw_exe@.subrange(0, raw_exe@.len() as int) =~= raw_exe@);
    let ghost d = raw_exe@;
    let swfs = match scanner.scan_swfs_checked() {
        Some(v) => v,
        None => return None,
    };
    let ghost offs = spec_scan_from(d, 0)->0;
    let mut strings: Vec<String> = Vec::new();
    let ghost mut seen: Seq<Seq<char>> = Seq::empty();
    let mut k: usize = 0;
    assert(offs.subrange(0, 0) =~= Seq::<int>::empty());
    while k < swfs.len()
        invariant
            k <= swfs@.len(),
            d == raw_exe@,
            spec_scan_from(d, 0) is Some,
            offs == spec_scan_from(d, 0)->0,
            entries_are(swfs@, d, offs),
            forall|j: int| 0 <= j < k ==> !fws_walk_overruns(#[trigger] entry_raw(d, offs[j])),
            seen == scan_strings(d, offs.subrange(0, k as int)),
            strings_are(strings@, dedup(seen)),
        decreases swfs.len() - k,
    {
        let raw = &swfs[k].raw_bytes;
        assert(entry_is(swfs@[k as int], d, offs[k as int]));
        assert(raw@ == entry_raw(d, offs[k as int]));
        let found = match strings_core(raw.as_slice()) {
            Some(f) => f,
            None => {
                assert(fws_walk_overruns(entry_raw(d, offs[k as int])));
                return None;
            },
        };
        let ghost fm = spec_fws_strings(raw@);
        let mut j: usize = 0;
        assert(seen + fm.subrange(0, 0) =~= seen);
        while j < found.len()
            invariant
                j <= found@.len(),
                strings_are(found@, fm),
                strings_are(strings@, dedup(seen + fm.subrange(0, j as int))),
            decreases found.len() - j,
        {
            let s = &found[j];
            let ghost all = seen + fm.subrange(0, j + 1);
            assert(all.drop_last() =~= seen + fm.subrange(0, j as int));
            assert(all.last() == s@);
            assert(strings@.map_values(|x: String| x@) =~= dedup(seen + fm.subrange(0, j as int)));
            if !has_string(&strings, s) {
                strings.push(s.clone());
            }
            j = j + 1;
        }
        proof {
            assert(fm.subrange(0, fm.len() as int) =~= fm);
            assert(offs.subrange(0, k + 1).drop_last() =~= offs.subrange(0, k as int));
            seen = seen + fm;
        }
        k = k + 1;
    }
    assert(offs.subrange(0, offs.len() as int) =~= offs);
    Some(strings)
}

/// Extract all ABC string constants of all SWFs embedded in an
/// executable, each once, in the order in which they are first met.
pub fn extract_abc_strings(raw_exe: &[u8]) -> (r: Result<Vec<String>, SwfError>)
    requires
        abc_scan_ok(raw_exe@),
    ensures
        r matches Ok(v) && strings_are(v@, spec_abc_strings(raw_exe@)),
{
    match abc_strings_core(raw_exe) {
        Some(v) => Ok(v),
        None => Ok(Vec::new()),
    }
}

/// [`extract_abc_strings`] on any input: `None` where the scan or a tag
/// walk would index past the data.
pub fn extract_abc_strings_checked(raw_exe: &[u8]) -> (r: Option<Vec<String>>)
    ensures
        !abc_scan_ok(raw_exe@) ==> r is None,
        abc_scan_ok(raw_exe@) ==> (r matches Some(v) && strings_are(v@, spec_abc_strings(raw_exe@))),
{
    abc_strings_core(raw_exe)
}

/// The first of `strings` whose lower case contains the lower case of
/// `substring`.
fn first_containing_in(strings: &Vec<String>, substring: &str) -> (r: Option<String>)
    ensures
        match first_containing(string_views(strings@), substring@) {
            None => r is None,
            Some(s) => r matches Some(t) && t@ == s,
        },
{
    let ghost m = string_views(strings@);
    let lowered = crate::bytes::str_chars(str_to_lowercase(substring).as_str());
    let mut i: usize = 0;
    assert(m.subrange(0, m.len() as int) =~= m);
    while i < strings.len()
        invariant
            i <= strings@.len(),
            m == string_views(strings@),
            lowered@ == lowercase(substring@),
            first_containing(m, substring@) == first_containing(m.subrange(i as int, m.len() as int), substring@),
        decreases strings.len() - i,
    {
        let s = &strings[i];
        let ls = crate::bytes::str_chars(str_to_lowercase(s.as_str()).as_str());
        assert(m.subrange(i as int, m.len() as int)[0] == s@);
        assert(m.subrange(i as int, m.len() as int).drop_first() =~= m.subrange(i + 1, m.len() as int));
        if chars_contain(&ls, &lowered) {
            let t = s.clone();
            assert(first_containing(m.subrange(i as int, m.len() as int), substring@) == Some(s@));
            return Some(t);
        }
        i = i + 1;
    }
    None
}

/// Find an ABC string of an executable that contains `substring`, both
/// compared in lower case; the first such string in the order of
/// [`extract_abc_strings`].
pub fn find_abc_string_containing(raw_exe: &[u8], substring: &str) -> (r: Result<Option<String>, SwfError>)
    requires
        abc_scan_ok(raw_exe@),
    ensures
        r matches Ok(o) && match first_containing(spec_abc_strings(raw_exe@), substring@) {
            None => o is None,
            Some(s) => o matches Some(t) && t@ == s,
        },
{
    let strings = match extract_abc_strings(raw_exe) {
        Ok(v) => v,
        Err(e) => return Err(e),
    };
    assert(string_views(strings@) =~= spec_abc_strings(raw_exe@));
    Ok(first_containing_in(&strings, substring))
}

/// [`find_abc_string_containing`] on any input: `None` where the scan or a
/// tag walk would index past the data.
pub fn find_abc_string_containing_checked(raw_exe: &[u8], substring: &str) -> (r: Option<Option<String>>)
    ensures
        !abc_scan_ok(raw_exe@) ==> r is None,
        abc_scan_ok(raw_exe@) ==> (r matches Some(o) && match first_containing(
            spec_abc_strings(raw_exe@),
            substring@,
        ) {
            None => o is None,
            Some(s) => o matches Some(t) && t@ == s,
        }),
{
    let strings = abc_strings_core(raw_exe)?;
    assert(string_views(strings@) =~= spec_abc_strings(raw_exe@));
    Some(first_containing_in(&strings, substring))
}

/// What [`dedup`] keeps: no item twice, and exactly the items of the input.
pub proof fn lemma_dedup(s: Seq<Seq<char>>)
    ensures
        dedup(s).no_duplicates(),
        forall|x: Seq<char>| dedup(s).contains(x) <==> s.contains(x),
    decreases s.len(),
{
    if s.len() > 0 {
        let t = s.drop_last();
        lemma_dedup(t);
        assert forall|x: Seq<char>| dedup(s).contains(x) <==> s.contains(x) by {
            if s.contains(x) {
                let j = choose|j: int| 0 <= j < s.len() && s[j] == x;
                if j < s.len() - 1 {
                    assert(t[j] == x);
                    assert(t.contains(x));
                }
            }
            if t.contains(x) {
                let j = choose|j: int| 0 <= j < t.len() && t[j] == x;
                assert(s[j] == x);
            }
            if dedup(s).contains(x) && !dedup(t).contains(x) {
                assert(dedup(s) == dedup(t).push(s.last()));
                let j = choose|j: int| 0 <= j < dedup(s).len() && dedup(s)[j] == x;
                if j < dedup(t).len() {
                    assert(dedup(t)[j] == x);
                }
                assert(s[s.len() - 1] == x);
            }
            if !dedup(t).contains(s.last()) {
                assert(dedup(s)[dedup(s).len() - 1] == s.last());
                if dedup(t).contains(x) {
                    let j = choose|j: int| 0 <= j < dedup(t).len() && dedup(t)[j] == x;
                    assert(dedup(s)[j] == x);
                }
            }
        }
    }
}

/// The strings returned for an executable hold each string at most once,
/// and are exactly the strings of the constant pools of all SWFs found:
/// the set of ABC strings.
pub proof fn law_abc_strings_are_a_set(d: Seq<u8>)
    requires
        abc_scan_ok(d),
    ensures
        spec_abc_strings(d).no_duplicates(),
        forall|x: Seq<char>|
            spec_abc_strings(d).contains(x) <==> scan_strings(d, spec_scan_from(d, 0)->0).contains(x),
{
    lemma_dedup(scan_strings(d, spec_scan_from(d, 0)->0));
}

/// A string that looks like a publisher key: its lower case contains
/// `pub` and `ish`, and it is 10 to 20 bytes long.
pub open spec fn key_like(s: Seq<char>) -> bool {
    contains_run(lowercase(s), "pub"@) && contains_run(lowercase(s), "ish"@) && 10
        <= vstd::utf8::encode_utf8(s).len() <= 20
}

/// The first key-like string.
pub open spec fn first_key_like(m: Seq<Seq<char>>) -> Option<Seq<char>>
    decreases m.len(),
{
    if m.len() == 0 {
        None
    } else if key_like(m[0]) {
        Some(m[0])
    } else {
        first_key_like(m.drop_first())
    }
}

/// The publisher key hidden in an executable's ActionScript strings: one
/// containing `pub1isher`, else one containing `isher` whose lower case
/// contains `pub`, else the first key-like string (all searches ignore
/// case and go in the order of [`extract_abc_strings`]).
pub open spec fn spec_publisher_key(d: Seq<u8>) -> Option<Seq<char>> {
    publisher_key_of(spec_abc_strings(d))
}

/// The publisher key among the strings `m`: one containing `pub1isher`,
/// else one containing `isher` whose lower case contains `pub`, else the
/// first key-like string.
pub open spec fn publisher_key_of(m: Seq<Seq<char>>) -> Option<Seq<char>> {
    match first_containing(m, "pub1isher"@) {
        Some(s) => Some(s),
        None => match first_containing(m, "isher"@) {
            Some(s) if contains_run(lowercase(s), "pub"@) => Some(s),
            _ => first_key_like(m),
        },
    }
}

fn lower_contains(lower: &Vec<char>, needle: &str) -> (r: bool)
    ensures
        r == contains_run(lower@, needle@),
{
    chars_contain(lower, &crate::bytes::str_chars(needle))
}

/// The publisher key among `strings` (see [`spec_publisher_key`]).
fn publisher_key_in(strings: &Vec<String>) -> (r: Option<String>)
    ensures
        match publisher_key_of(string_views(strings@)) {
            None => r is None,
            Some(k) => r matches Some(s) && s@ == k,
        },
{
    let ghost m = string_views(strings@);
    let first = first_containing_in(strings, "pub1isher");
    if let Some(found) = first {
        return Some(found);
    }
    let second = first_containing_in(strings, "isher");
    match second {
        Some(found) => {
            let lower = crate::bytes::str_chars(str_to_lowercase(found.as_str()).as_str());
            if lower_contains(&lower, "pub") {
                return Some(found);
            }
        },
        None => {},
    }
    assert(publisher_key_of(m) == first_key_like(m));
    let mut i: usize = 0;
    assert(m.subrange(0, m.len() as int) =~= m);
    while i < strings.len()
        invariant
            i <= strings@.len(),
            m == string_views(strings@),
            publisher_key_of(m) == first_key_like(m),
            first_key_like(m) == first_key_like(m.subrange(i as int, m.len() as int)),
        decreases strings.len() - i,
    {
        let s = &strings[i];
        assert(m.subrange(i as int, m.len() as int)[0] == s@);
        assert(m.subrange(i as int, m.len() as int).drop_first() =~= m.subrange(i + 1, m.len() as int));
        let lower = crate::bytes::str_chars(str_to_lowercase(s.as_str()).as_str());
        let n = s.as_str().as_bytes().len();
        if lower_contains(&lower, "pub") && lower_contains(&lower, "ish") && n >= 10 && n <= 20 {
            return Some(s.clone());
        }
        i = i + 1;
    }
    None
}

/// Find the publisher key among the ActionScript strings of an executable.
pub fn extract_publisher_key(raw_data: &[u8]) -> (r: Option<String>)
    requires
        abc_scan_ok(raw_data@),
    ensures
        match spec_publisher_key(raw_data@) {
            None => r is None,
            Some(k) => r matches Some(s) && s@ == k,
        },
{
    let strings = match extract_abc_strings(raw_data) {
        Ok(v) => v,
        Err(_) => return None,
    };
    assert(string_views(strings@) =~= spec_abc_strings(raw_data@));
    publisher_key_in(&strings)
}

/// [`extract_publisher_key`] on any input: `None` where the scan or a
/// tag walk would index past the data.
pub fn extract_publisher_key_checked(raw_data: &[u8]) -> (r: Option<Option<String>>)
    ensures
        !abc_scan_ok(raw_data@) ==> r is None,
        abc_scan_ok(raw_data@) ==> (r matches Some(o) && match spec_publisher_key(raw_data@) {
            None => o is None,
            Some(k) => o matches Some(s) && s@ == k,
        }),
{
    let strings = abc_strings_core(raw_data)?;
    assert(string_views(strings@) =~= spec_abc_strings(raw_data@));
    Some(publisher_key_in(&strings))
}

/// The SWFs found by a scan do not overlap: each one starts at or after
/// the end of the one before it, and all lie at or after the start of the
/// scan.
pub proof fn law_scan_finds_disjoint_swfs(d: Seq<u8>, i: int)
    requires
        0 <= i,
    ensures
        spec_scan_from(d, i) matches Some(offs) ==> {
            &&& forall|k: int| 0 <= k < offs.len() ==> i <= #[trigger] offs[k] && offs[k] + 8 < d.len()
            &&& forall|k: int| 0 <= k < offs.len() - 1 ==> swf_end(d, #[trigger] offs[k]) <= offs[k + 1]
        },
    decreases d.len() - i,
{
    if i + 8 > d.len() {
    } else if !header_ok(d, i) {
        law_scan_finds_disjoint_swfs(d, i + 1);
    } else if i + 8 == d.len() {
    } else if !nbits_ok(d, i) {
        law_scan_finds_disjoint_swfs(d, i + 1);
    } else if !(spec_fws_of(d.subrange(i, swf_end(d, i))) is Fws) {
        law_scan_finds_disjoint_swfs(d, i + 1);
    } else {
        law_scan_finds_disjoint_swfs(d, swf_end(d, i));
        match spec_scan_from(d, swf_end(d, i)) {
            None => {},
            Some(rest) => {
                let offs = seq![i] + rest;
                assert forall|k: int| 0 <= k < offs.len() - 1 implies swf_end(d, #[trigger] offs[k]) <= offs[k + 1] by {
                    if k == 0 {
                        assert(offs[1] == rest[0]);
                    } else {
                        assert(offs[k] == rest[k - 1]);
                        assert(offs[k + 1] == rest[k]);
                    }
                }
                assert forall|k: int| 0 <= k < offs.len() implies i <= #[trigger] offs[k] && offs[k] + 8 < d.len() by {
                    if k > 0 {
                        assert(offs[k] == rest[k - 1]);
                    }
                }
            },
        }
    }
}

/// The string found by a case-insensitive search is one of the strings
/// searched, and its lower case contains the lower case of the needle; no
/// string before it does.
pub proof fn law_found_string_contains_needle(m: Seq<Seq<char>>, needle: Seq<char>)
    ensures
        first_containing(m, needle) matches Some(s) ==> m.contains(s) && contains_run(lowercase(s), lowercase(needle)),
        first_containing(m, needle) is None ==> forall|k: int| 0 <= k < m.len() ==> !contains_run(lowercase(#[trigger] m[k]), lowercase(needle)),
    decreases m.len(),
{
    if m.len() > 0 {
        law_found_string_contains_needle(m.drop_first(), needle);
        if let Some(s) = first_containing(m, needle) {
            if !contains_run(lowercase(m[0]), lowercase(needle)) {
                let j = choose|j: int| 0 <= j < m.drop_first().len() && m.drop_first()[j] == s;
                assert(m[j + 1] == s);
            } else {
                assert(m[0] == s);
            }
        } else {
            assert forall|k: int| 0 <= k < m.len() implies !contains_run(lowercase(#[trigger] m[k]), lowercase(needle)) by {
                if k > 0 {
                    assert(m.drop_first()[k - 1] == m[k]);
                }
            }
        }
    }
}

proof fn lemma_scan_entries(d: Seq<u8>, i: int)
    requires
        0 <= i,
    ensures
        spec_scan_from(d, i) matches Some(offs) ==> forall|k: int|
            0 <= k < offs.len() ==> header_ok(d, #[trigger] offs[k]) && offs[k] + 8 < d.len() && spec_fws_of(
                d.subrange(offs[k], swf_end(d, offs[k])),
            ) is Fws,
    decreases d.len() - i,
{
    if i + 8 > d.len() {
    } else if !header_ok(d, i) {
        lemma_scan_entries(d, i + 1);
    } else if i + 8 == d.len() {
    } else if !nbits_ok(d, i) {
        lemma_scan_entries(d, i + 1);
    } else if !(spec_fws_of(d.subrange(i, swf_end(d, i))) is Fws) {
        lemma_scan_entries(d, i + 1);
    } else {
        lemma_scan_entries(d, swf_end(d, i));
        match spec_scan_from(d, swf_end(d, i)) {
            None => {},
            Some(rest) => {
                let offs = seq![i] + rest;
                assert forall|k: int| 0 <= k < offs.len() implies header_ok(d, #[trigger] offs[k]) && offs[k] + 8
                    < d.len() && spec_fws_of(d.subrange(offs[k], swf_end(d, offs[k]))) is Fws by {
                    if k > 0 {
                        assert(offs[k] == rest[k - 1]);
                    }
                }
            },
        }
    }
}

/// Every SWF the scan records is uncompressed: its bytes start with the
/// signature `FWS`, so normalising them changes nothing; one found as
/// `CWS` is recorded as `FWS`, its header bytes 3..8 and its inflated
/// body, and one found as `FWS` as the bytes found.
pub proof fn law_recorded_swfs_are_uncompressed(d: Seq<u8>)
    ensures
        spec_scan_from(d, 0) matches Some(offs) ==> forall|k: int| 0 <= k < offs.len() ==> {
            let o = #[trigger] offs[k];
            let h = d.subrange(o, swf_end(d, o));
            let raw = entry_raw(d, o);
            &&& raw.len() >= 8
            &&& raw[0] == 0x46 && raw[1] == 0x57 && raw[2] == 0x53
            &&& spec_to_fws(raw) == FwsResult::Fws(raw)
            &&& (d[o] == 0x43 ==> (zlib_decompress(h.subrange(8, h.len() as int)) matches Some(body) && raw
                == seq![0x46u8, 0x57u8, 0x53u8] + h.subrange(3, 8) + body))
            &&& (d[o] == 0x46 ==> raw == h)
        },
{
    lemma_scan_entries(d, 0);
    if let Some(offs) = spec_scan_from(d, 0) {
        assert forall|k: int| 0 <= k < offs.len() implies {
            let o = #[trigger] offs[k];
            let h = d.subrange(o, swf_end(d, o));
            let raw = entry_raw(d, o);
            &&& raw.len() >= 8
            &&& raw[0] == 0x46 && raw[1] == 0x57 && raw[2] == 0x53
            &&& spec_to_fws(raw) == FwsResult::Fws(raw)
            &&& (d[o] == 0x43 ==> (zlib_decompress(h.subrange(8, h.len() as int)) matches Some(body) && raw
                == seq![0x46u8, 0x57u8, 0x53u8] + h.subrange(3, 8) + body))
            &&& (d[o] == 0x46 ==> raw == h)
        } by {
            let o = offs[k];
            let h = d.subrange(o, swf_end(d, o));
            assert(header_ok(d, o));
            assert(h.len() >= 9);
            assert(h[0] == d[o] && h[1] == d[o + 1] && h[2] == d[o + 2]);
            assert(d.subrange(o, o + 3)[0] == d[o] && d.subrange(o, o + 3)[1] == d[o + 1] && d.subrange(o, o + 3)[2]
                == d[o + 2]);
        }
    }
}

} // verus!
