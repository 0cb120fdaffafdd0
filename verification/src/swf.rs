//! SWF headers: normalisation to uncompressed `FWS`, and the frame count.
use vstd::prelude::*;
use std::io::Read;
use crate::bytes::{decimal, push_decimal, string_push_str, append_bytes, copy_range, read_u16_le, slice_range, spec_u16_le};
use crate::kk::string_from_utf8;

verus! {

/// Errors of the SWF header helpers.
#[derive(Debug, Clone, PartialEq, Eq)]
pub enum SwfError {
    /// Fewer than 8 bytes.
    TooShort(usize),
    /// The zlib stream of a `CWS` file does not inflate.
    Zlib,
    /// `ZWS` (LZMA) files are not handled.
    UnsupportedZws,
    /// Not a SWF signature (the three bytes, when they are text).
    BadSignature(String),
}

/// Text of a [`SwfError`].
pub open spec fn swf_message(e: SwfError) -> Seq<char> {
    match e {
        SwfError::TooShort(n) => "SWF too short: "@ + decimal(n as nat) + " bytes"@,
        SwfError::Zlib => "zlib inflate failed"@,
        SwfError::UnsupportedZws => "ZWS (LZMA) SWF is not supported"@,
        SwfError::BadSignature(sig) => "not a SWF signature: \""@ + sig@ + "\""@,
    }
}

impl SwfError {
    /// Human-readable text of the error.
    pub fn message(&self) -> (r: String)
        ensures
            r@ == swf_message(*self),
    {
        let mut s = String::new();
        match self {
            SwfError::TooShort(n) => {
                string_push_str(&mut s, "SWF too short: ");
                push_decimal(&mut s, *n as u64);
                string_push_str(&mut s, " bytes");
            },
            SwfError::Zlib => string_push_str(&mut s, "zlib inflate failed"),
            SwfError::UnsupportedZws => string_push_str(&mut s, "ZWS (LZMA) SWF is not supported"),
            SwfError::BadSignature(sig) => {
                string_push_str(&mut s, "not a SWF signature: \"");
                string_push_str(&mut s, sig.as_str());
                string_push_str(&mut s, "\"");
            },
        }
        s
    }
}

/// The zlib decompression of `data`, or `None` when it is not a valid zlib
/// stream.
pub uninterp spec fn zlib_decompress(data: Seq<u8>) -> Option<Seq<u8>>;

/// `flate2::read::ZlibDecoder::new(data).read_to_end(..)`.  Stated: the
/// result is the named decompression of `data` (`None` for a read error).
#[verifier::external_body]
pub(crate) fn zlib_inflate(data: &[u8]) -> (r: Option<Vec<u8>>)
    ensures
        match zlib_decompress(data@) {
            None => r is None,
            Some(d) => r matches Some(v) && v@ == d,
        },
{
    let mut body = Vec::new();
    flate2::read::ZlibDecoder::new(data).read_to_end(&mut body).ok()?;
    Some(body)
}

pub open spec fn sig_is(d: Seq<u8>, a: u8, b: u8, c: u8) -> bool {
    d[0] == a && d[1] == b && d[2] == c
}

/// `FWS`
pub open spec fn is_fws(d: Seq<u8>) -> bool {
    sig_is(d, 0x46, 0x57, 0x53)
}

/// `CWS` or `cws`
pub open spec fn is_cws(d: Seq<u8>) -> bool {
    sig_is(d, 0x43, 0x57, 0x53) || sig_is(d, 0x63, 0x77, 0x73)
}

/// `ZWS` or `zws`
pub open spec fn is_zws(d: Seq<u8>) -> bool {
    sig_is(d, 0x5a, 0x57, 0x53) || sig_is(d, 0x7a, 0x77, 0x73)
}

/// Result of [`to_fws`] (errors by kind).
pub enum FwsResult {
    Fws(Seq<u8>),
    TooShort,
    Zlib,
    Zws,
    BadSignature,
}

/// An uncompressed SWF: `FWS` files as they are; `CWS` files inflated
/// behind a header `FWS`, version, declared length.
pub open spec fn spec_to_fws(data: Seq<u8>) -> FwsResult {
    if data.len() < 8 {
        FwsResult::TooShort
    } else if is_fws(data) {
        FwsResult::Fws(data)
    } else if is_cws(data) {
        match zlib_decompress(data.subrange(8, data.len() as int)) {
            None => FwsResult::Zlib,
            Some(body) => FwsResult::Fws(
                seq![0x46u8, 0x57u8, 0x53u8, data[3]] + data.subrange(4, 8) + body,
            ),
        }
    } else if is_zws(data) {
        FwsResult::Zws
    } else {
        FwsResult::BadSignature
    }
}

pub open spec fn fws_result_is(r: Result<Vec<u8>, SwfError>, m: FwsResult, len: nat) -> bool {
    match m {
        FwsResult::Fws(v) => r matches Ok(w) && w@ == v,
        FwsResult::TooShort => r == Err::<Vec<u8>, SwfError>(SwfError::TooShort(len as usize)),
        FwsResult::Zlib => r == Err::<Vec<u8>, SwfError>(SwfError::Zlib),
        FwsResult::Zws => r == Err::<Vec<u8>, SwfError>(SwfError::UnsupportedZws),
        FwsResult::BadSignature => r matches Err(SwfError::BadSignature(_)),
    }
}

/// Normalise a SWF byte stream to uncompressed `FWS`: `FWS` is returned as
/// is, `CWS`/`cws` is inflated and its signature rewritten, `ZWS`/`zws`
/// (LZMA) is refused.
pub fn to_fws(data: &[u8]) -> (r: Result<Vec<u8>, SwfError>)
    ensures
        fws_result_is(r, spec_to_fws(data@), data@.len()),
{
    if data.len() < 8 {
        return Err(SwfError::TooShort(data.len()));
    }
    let version = data[3];
    if data[0] == 0x46 && data[1] == 0x57 && data[2] == 0x53 {
        let whole = copy_range(data, 0, data.len());
        assert(whole@ =~= data@);
        return Ok(whole);
    }
    if (data[0] == 0x43 && data[1] == 0x57 && data[2] == 0x53) || (data[0] == 0x63 && data[1] == 0x77
        && data[2] == 0x73) {
        let body = match zlib_inflate(slice_range(data, 8, data.len())) {
            Some(b) => b,
            None => return Err(SwfError::Zlib),
        };
        let mut fws: Vec<u8> = Vec::new();
        fws.push(0x46);
        fws.push(0x57);
        fws.push(0x53);
        fws.push(version);
        append_bytes(&mut fws, slice_range(data, 4, 8));
        append_bytes(&mut fws, body.as_slice());
        assert(fws@ =~= seq![0x46u8, 0x57u8, 0x53u8, data@[3]] + data@.subrange(4, 8) + body@);
        return Ok(fws);
    }
    if (data[0] == 0x5a && data[1] == 0x57 && data[2] == 0x53) || (data[0] == 0x7a && data[1] == 0x77
        && data[2] == 0x73) {
        return Err(SwfError::UnsupportedZws);
    }
    let sig = match string_from_utf8(copy_range(data, 0, 3)) {
        Some(s) => s,
        None => "<non-utf8>".to_owned(),
    };
    Err(SwfError::BadSignature(sig))
}

/// Normalising twice gives the same result as normalising once: the
/// result of a successful normalisation is an `FWS` file of at least 8
/// bytes, which is kept as it is.
pub proof fn law_to_fws_idempotent(data: Seq<u8>)
    ensures
        spec_to_fws(data) matches FwsResult::Fws(v) ==> is_fws(v) && v.len() >= 8,
        spec_to_fws(data) matches FwsResult::Fws(v) ==> spec_to_fws(v) == FwsResult::Fws(v),
{
}

/// Frame count of an uncompressed SWF: read after the stage rectangle
/// (5 + 4 * nbits bits) and the frame rate; 0 when the header cannot be
/// read or `nbits` is outside 4..=19.
pub open spec fn spec_frame_count(data: Seq<u8>) -> u16 {
    if data.len() < 12 {
        0
    } else {
        let nbits = (data[8] >> 3u8) as int;
        if !(4 <= nbits <= 19) {
            0
        } else {
            let rect_bytes = (5 + nbits * 4 + 7) / 8;
            let offset = 8 + rect_bytes;
            if data.len() < offset + 4 {
                0
            } else {
                spec_u16_le(data, offset + 2)
            }
        }
    }
}

/// Read the frame count of an uncompressed SWF.
pub fn read_frame_count(data: &[u8]) -> (r: u16)
    ensures
        r == spec_frame_count(data@),
{
    if data.len() < 12 {
        return 0;
    }
    let nbits = data[8] >> 3;
    if !(nbits >= 4 && nbits <= 19) {
        return 0;
    }
    let rect_bytes = ((5 + nbits * 4 + 7) / 8) as usize;
    let offset = 8 + rect_bytes;
    if data.len() < offset + 4 {
        return 0;
    }
    read_u16_le(data, offset + 2)
}

/// Kind of an embedded SWF, by frame count and size.
pub open spec fn spec_classify(frame_count: u16, len: usize) -> &'static str {
    if frame_count > 1000 {
        "page"
    } else if frame_count > 100 && len > 150_000 {
        "loader"
    } else if frame_count > 100 {
        "page"
    } else {
        "ui"
    }
}

/// Classify an SWF by frame count and content size.
pub fn classify_swf(frame_count: u16, len: usize) -> (r: &'static str)
    ensures
        r == spec_classify(frame_count, len),
{
    if frame_count > 1000 {
        return "page";
    }
    if frame_count > 100 && len > 150_000 {
        return "loader";
    }
    if frame_count > 100 {
        return "page";
    }
    "ui"
}

/// The uncompressed SWF of a normalisation, if it succeeded.
pub open spec fn fws_ok(m: FwsResult) -> Option<Seq<u8>> {
    match m {
        FwsResult::Fws(v) => Some(v),
        _ => None,
    }
}

/// [`to_fws`] without the reason of a failure.
pub fn convert_to_fws(data: &[u8]) -> (r: Option<Vec<u8>>)
    ensures
        match fws_ok(spec_to_fws(data@)) {
            None => r is None,
            Some(v) => r matches Some(w) && w@ == v,
        },
{
    match to_fws(data) {
        Ok(v) => Some(v),
        Err(_) => None,
    }
}

} // verus!
