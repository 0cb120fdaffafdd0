//! The `.frns` book format: a Flash-LZMA compressed JSON book whose frames
//! each carry an encrypted SWF.
use vstd::prelude::*;
use vstd::utf8::{encode_utf8, valid_utf8};
use lzma_rs::decompress::raw::{LzmaDecoder, LzmaParams, LzmaProperties};
use crate::bytes::{
    copy_range, find_bytes, first_occurrence, push_signed_decimal, signed_decimal, slice_range,
    append_bytes, spec_u32_le, read_u32_le,
};
use crate::kk::{b64_filter, b64_filtered, base64_decode, base64_standard_decode, spec_apply_xor, string_from_utf8, CryptoError};
use crate::kry::{kry_code_fits, spec_kry_decrypt, KryCode, KrySWFCrypto};

verus! {

/// Size of the Flash LZMA header: properties, dictionary size, unpacked
/// size.
pub const LZMA_HEADER_SIZE: usize = 13;

/// Memory limit handed to the LZMA decoder (128 MiB).
pub const LZMA_MEMLIMIT: usize = 134217728;

/// Errors of the `.frns` reader.
#[derive(Debug, Clone, Copy, PartialEq, Eq)]
pub enum FrnsError {
    /// Fewer bytes than the LZMA header.
    LzmaTooShort { got: usize, min: usize },
    /// The LZMA stream does not decode.
    Lzma { context: &'static str },
    /// A frame cannot be decrypted.
    Frame { frame: u32, message: &'static str },
    /// Base64 decoding failed at the named step.
    Base64 { context: &'static str },
    /// The XOR-decoded part is not UTF-8.
    Utf8,
    /// The SWF cipher failed.
    Crypto(CryptoError),
}

/// Raw LZMA1 decoding of `input` with the given properties, dictionary
/// size, unpacked size and memory limit; `None` when the stream does not
/// decode.
pub uninterp spec fn lzma_raw(lc: u32, lp: u32, pb: u32, dict_size: u32, unpacked_size: u64, memlimit: usize, input: Seq<u8>) -> Option<Seq<u8>>;

/// `lzma_rs::decompress::raw::LzmaDecoder::new` (which asserts `lc <= 8`,
/// `lp <= 4`, `pb <= 4`) and `decompress` of `input`.  Stated: the result
/// is the named decoding of the arguments (`None` for the crate's error).
#[verifier::external_body]
fn lzma_raw_decompress(lc: u32, lp: u32, pb: u32, dict_size: u32, unpacked_size: u64, memlimit: usize, input: &[u8]) -> (r: Option<Vec<u8>>)
    requires
        lc <= 8,
        lp <= 4,
        pb <= 4,
    ensures
        match lzma_raw(lc, lp, pb, dict_size, unpacked_size, memlimit, input@) {
            None => r is None,
            Some(o) => r matches Some(v) && v@ == o,
        },
{
    let params = LzmaParams::new(LzmaProperties { lc, lp, pb }, dict_size, Some(unpacked_size));
    let mut decoder = LzmaDecoder::new(params, Some(memlimit)).ok()?;
    let mut output = Vec::new();
    decoder.decompress(&mut std::io::Cursor::new(input), &mut output).ok()?;
    Some(output)
}

/// Little-endian `u64` at `at`, as an integer.
pub open spec fn spec_u64_le(d: Seq<u8>, at: int) -> int {
    spec_u32_le(d, at) + spec_u32_le(d, at + 4) * 0x1_0000_0000
}

/// A Flash LZMA stream the decoder can be set up for: a properties byte
/// below 225 (so `pb <= 4`) and an unpacked size that can be reserved.
pub open spec fn lzma_header_usable(data: Seq<u8>) -> bool {
    data.len() >= 13 ==> data[0] < 225 && spec_u64_le(data, 5) <= 0x7FFF_FFFF_FFFF_FFFF
}

/// Flash LZMA: a 13-byte header (properties `lc + 9 * (lp + 5 * pb)`,
/// dictionary size, unpacked size) followed by a raw LZMA1 stream.
pub open spec fn spec_flash_lzma(data: Seq<u8>) -> Result<Seq<u8>, FrnsError> {
    if data.len() < 13 {
        Err(FrnsError::LzmaTooShort { got: data.len() as usize, min: 13 })
    } else {
        let props = data[0];
        match lzma_raw(
            (props % 9) as u32,
            ((props / 9) % 5) as u32,
            (props / 45) as u32,
            spec_u32_le(data, 1),
            spec_u64_le(data, 5) as u64,
            LZMA_MEMLIMIT,
            data.subrange(13, data.len() as int),
        ) {
            None => Err(FrnsError::Lzma { context: "decompress" }),
            Some(v) => Ok(v),
        }
    }
}

/// Decompress a Flash LZMA stream (13-byte header + raw LZMA1 payload).
pub fn decompress_flash_lzma(data: &[u8]) -> (r: Result<Vec<u8>, FrnsError>)
    requires
        lzma_header_usable(data@),
    ensures
        match spec_flash_lzma(data@) {
            Ok(v) => r matches Ok(w) && w@ == v,
            Err(e) => r == Err::<Vec<u8>, FrnsError>(e),
        },
{
    if data.len() < LZMA_HEADER_SIZE {
        return Err(FrnsError::LzmaTooShort { got: data.len(), min: LZMA_HEADER_SIZE });
    }
    let props = data[0];
    let lc = (props % 9) as u32;
    let remaining = props / 9;
    let lp = (remaining % 5) as u32;
    let pb = (remaining / 5) as u32;
    let dict_size = read_u32_le(data, 1);
    let lo = read_u32_le(data, 5) as u64;
    let hi = read_u32_le(data, 9) as u64;
    let uncomp_size: u64 = lo + hi * 0x1_0000_0000;
    match lzma_raw_decompress(lc, lp, pb, dict_size, uncomp_size, LZMA_MEMLIMIT, slice_range(data, LZMA_HEADER_SIZE, data.len())) {
        None => Err(FrnsError::Lzma { context: "decompress" }),
        Some(v) => Ok(v),
    }
}

/// One frame of a `.frns` book: its number and its encrypted payload
/// `{b64}+/={b64}`.
#[derive(Debug, Clone)]
pub struct FrnsFrame {
    pub frame: u32,
    pub data: String,
}

/// The separator between the XOR-encoded part and the rest of a payload.
pub open spec fn frame_separator() -> Seq<u8> {
    seq![0x2bu8, 0x2fu8, 0x3du8]
}

/// The XOR key of a frame: the decimal text of `f1 + f2 + f3`.
pub open spec fn frame_key(c: KryCode) -> Seq<u8> {
    encode_utf8(signed_decimal(c.f1 + c.f2 + c.f3))
}

/// Base64, then repeating-key XOR; the result must be UTF-8.
pub open spec fn spec_xor_decode_b64(b64: Seq<u8>, key: Seq<u8>) -> Result<Seq<u8>, FrnsError> {
    match base64_standard_decode(b64) {
        None => Err(FrnsError::Base64 { context: "xor_decode" }),
        Some(b) => if valid_utf8(spec_apply_xor(b, key)) {
            Ok(spec_apply_xor(b, key))
        } else {
            Err(FrnsError::Utf8)
        },
    }
}

/// Decryption of a frame payload: split at the first `+/=`, decode the
/// part before it, join it to the part after, keep the Base64 alphabet,
/// decode, and undo the SWF cipher.
#[verifier::opaque]
pub open spec fn spec_frame_decrypt(data: Seq<u8>, frame: u32, c: KryCode) -> Result<Seq<u8>, FrnsError> {
    match first_occurrence(data, frame_separator()) {
        None => Err(FrnsError::Frame { frame, message: "frame data missing '+/=' separator" }),
        Some(i) => match spec_xor_decode_b64(data.subrange(0, i), frame_key(c)) {
            Err(e) => Err(e),
            Ok(x) => match base64_standard_decode(b64_filter(x + data.subrange(i + 3, data.len() as int))) {
                None => Err(FrnsError::Base64 { context: "frame" }),
                Some(enc) => Ok(spec_kry_decrypt(enc, c)),
            },
        },
    }
}

/// The frame key can be computed and the cipher run with `c`.
pub open spec fn frame_code_ok(c: KryCode) -> bool {
    &&& kry_code_fits(c)
    &&& i32::MIN <= c.f1 + c.f2 + c.f3 <= i32::MAX
}

fn xor_decode_b64(b64: &[u8], key: &[u8]) -> (r: Result<Vec<u8>, FrnsError>)
    requires
        key@.len() > 0,
    ensures
        match spec_xor_decode_b64(b64@, key@) {
            Ok(v) => r matches Ok(w) && w@ == v,
            Err(e) => r == Err::<Vec<u8>, FrnsError>(e),
        },
{
    let bytes = match base64_decode(b64) {
        Some(b) => b,
        None => return Err(FrnsError::Base64 { context: "xor_decode" }),
    };
    let mut xored: Vec<u8> = Vec::new();
    let mut i: usize = 0;
    while i < bytes.len()
        invariant
            key@.len() > 0,
            i <= bytes@.len(),
            xored@.len() == i,
            forall|k: int| 0 <= k < i ==> xored@[k] == bytes@[k] ^ key@[k % (key@.len() as int)],
        decreases bytes.len() - i,
    {
        xored.push(bytes[i] ^ key[i % key.len()]);
        i = i + 1;
    }
    assert(xored@ =~= spec_apply_xor(bytes@, key@));
    let check = copy_range(xored.as_slice(), 0, xored.len());
    assert(check@ =~= xored@);
    match string_from_utf8(check) {
        Some(_) => Ok(xored),
        None => Err(FrnsError::Utf8),
    }
}

impl FrnsFrame {
    /// Decrypt this frame's payload into the bytes of a SWF.
    pub fn decrypt(&self, code: &KryCode) -> (r: Result<Vec<u8>, FrnsError>)
        requires
            frame_code_ok(*code),
        ensures
            match spec_frame_decrypt(encode_utf8(self.data@), self.frame, *code) {
                Ok(v) => r matches Ok(w) && w@ == v,
                Err(e) => r == Err::<Vec<u8>, FrnsError>(e),
            },
    {
        reveal(spec_frame_decrypt);
        let mut key = String::new();
        push_signed_decimal(&mut key, (code.f1 + code.f2 + code.f3) as i64);
        let key_bytes = key.as_str().as_bytes();
        assert(key_bytes@ == frame_key(*code));
        assert(key_bytes@.len() > 0) by {
            assert(key@.len() > 0);
            assert(vstd::utf8::encode_scalar(key@[0] as u32).len() > 0);
        }
        let data = self.data.as_str().as_bytes();
        let sep: [u8; 3] = [0x2b, 0x2f, 0x3d];
        let sep_slice = sep.as_slice();
        assert(sep_slice@ =~= frame_separator());
        let i = match find_bytes(data, sep_slice) {
            Some(i) => i,
            None => return Err(FrnsError::Frame { frame: self.frame, message: "frame data missing '+/=' separator" }),
        };
        let n = data.len();
        assert(i + 3 <= n);
        let part0 = xor_decode_b64(slice_range(data, 0, i), key_bytes)?;
        let mut combined = part0;
        append_bytes(&mut combined, slice_range(data, i + 3, n));
        let filtered = b64_filtered(combined.as_slice());
        let mut encrypted = match base64_decode(filtered.as_slice()) {
            Some(b) => b,
            None => return Err(FrnsError::Base64 { context: "frame" }),
        };
        match KrySWFCrypto::decrypt(&mut encrypted, code) {
            Ok(()) => {},
            Err(e) => return Err(FrnsError::Crypto(e)),
        }
        Ok(encrypted)
    }
}

/// Decryption of frames in order; the first failure is the result.
pub open spec fn spec_decrypt_frames(fs: Seq<FrnsFrame>, c: KryCode) -> Result<Seq<Seq<u8>>, FrnsError>
    decreases fs.len(),
{
    if fs.len() == 0 {
        Ok(Seq::empty())
    } else {
        match spec_decrypt_frames(fs.drop_last(), c) {
            Err(e) => Err(e),
            Ok(v) => match spec_frame_decrypt(encode_utf8(fs.last().data@), fs.last().frame, c) {
                Err(e) => Err(e),
                Ok(x) => Ok(v.push(x)),
            },
        }
    }
}

pub open spec fn byte_strings_are(v: Seq<Vec<u8>>, m: Seq<Seq<u8>>) -> bool {
    v.len() == m.len() && forall|k: int| 0 <= k < v.len() ==> (#[trigger] v[k])@ == m[k]
}

/// Once a prefix of the frames fails, every longer prefix fails the same
/// way.
proof fn lemma_frames_err(fs: Seq<FrnsFrame>, c: KryCode, j: int, n: int)
    requires
        0 <= j <= n <= fs.len(),
        spec_decrypt_frames(fs.subrange(0, j), c) is Err,
    ensures
        spec_decrypt_frames(fs.subrange(0, n), c) == spec_decrypt_frames(fs.subrange(0, j), c),
    decreases n - j,
{
    if n > j {
        lemma_frames_err(fs, c, j, n - 1);
        assert(fs.subrange(0, n).drop_last() =~= fs.subrange(0, n - 1));
    }
}

/// Decrypt every frame of a book, in order, into SWF bytes.
pub fn decrypt_frames(frames: &Vec<FrnsFrame>, code: &KryCode) -> (r: Result<Vec<Vec<u8>>, FrnsError>)
    requires
        frame_code_ok(*code),
    ensures
        match spec_decrypt_frames(frames@, *code) {
            Ok(m) => r matches Ok(v) && byte_strings_are(v@, m),
            Err(e) => r == Err::<Vec<Vec<u8>>, FrnsError>(e),
        },
{
    let mut out: Vec<Vec<u8>> = Vec::new();
    let mut k: usize = 0;
    while k < frames.len()
        invariant
            k <= frames@.len(),
            frame_code_ok(*code),
            spec_decrypt_frames(frames@.subrange(0, k as int), *code) matches Ok(m) && byte_strings_are(out@, m),
        decreases frames.len() - k,
    {
        let ghost pre = frames@.subrange(0, k as int);
        assert(frames@.subrange(0, k + 1).drop_last() =~= pre);
        assert(frames@.subrange(0, k + 1).last() == frames@[k as int]);
        let swf = match frames[k].decrypt(code) {
            Ok(v) => v,
            Err(e) => {
                proof {
                    lemma_frames_err(frames@, *code, k + 1, frames@.len() as int);
                    assert(frames@.subrange(0, frames@.len() as int) =~= frames@);
                }
                return Err(e);
            },
        };
        out.push(swf);
        k = k + 1;
    }
    assert(frames@.subrange(0, frames@.len() as int) =~= frames@);
    Ok(out)
}

/// The JSON text of a `.frns` book: its Flash LZMA stream decompressed,
/// which must be UTF-8.
pub open spec fn spec_book_text(data: Seq<u8>) -> Result<Seq<u8>, FrnsError> {
    match spec_flash_lzma(data) {
        Err(e) => Err(e),
        Ok(v) => if valid_utf8(v) {
            Ok(v)
        } else {
            Err(FrnsError::Utf8)
        },
    }
}

/// Decompress a `.frns` book into its JSON text.
pub fn book_json_text(data: &[u8]) -> (r: Result<String, FrnsError>)
    requires
        lzma_header_usable(data@),
    ensures
        match spec_book_text(data@) {
            Ok(v) => r matches Ok(s) && encode_utf8(s@) == v,
            Err(e) => r == Err::<String, FrnsError>(e),
        },
{
    let json = decompress_flash_lzma(data)?;
    match string_from_utf8(json) {
        Some(s) => Ok(s),
        None => Err(FrnsError::Utf8),
    }
}

/// Decrypting a book gives exactly one SWF per frame, in frame order.
pub proof fn law_one_swf_per_frame(fs: Seq<FrnsFrame>, c: KryCode)
    ensures
        spec_decrypt_frames(fs, c) matches Ok(m) ==> m.len() == fs.len() && forall|k: int|
            0 <= k < fs.len() ==> spec_frame_decrypt(encode_utf8(fs[k].data@), fs[k].frame, c) == Ok::<Seq<u8>, FrnsError>(#[trigger] m[k]),
    decreases fs.len(),
{
    if fs.len() > 0 {
        law_one_swf_per_frame(fs.drop_last(), c);
        if let Ok(m) = spec_decrypt_frames(fs, c) {
            let m0 = spec_decrypt_frames(fs.drop_last(), c)->Ok_0;
            assert forall|k: int| 0 <= k < fs.len() implies spec_frame_decrypt(encode_utf8(fs[k].data@), fs[k].frame, c) == Ok::<Seq<u8>, FrnsError>(#[trigger] m[k]) by {
                if k < fs.len() - 1 {
                    assert(fs.drop_last()[k] == fs[k]);
                    assert(m[k] == m0[k]);
                }
            }
        }
    }
}

} // verus!
