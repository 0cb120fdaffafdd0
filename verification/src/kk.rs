//! Fernus string cipher "KK": reverse + Base64 + repeating-key XOR (`fd2`)
//! and lenient Base64 + Blowfish-ECB with PKCS#5 padding (`fd1`).
use vstd::prelude::*;
use vstd::string::StringSliceAdditionalSpecFns;
use vstd::utf8::{decode_utf8, encode_utf8, valid_utf8};
use crate::bytes::copy_range;
use base64::Engine;
use blowfish::cipher::{Array, BlockCipherDecrypt, KeyInit};

verus! {

/// Default publisher key, used when none can be extracted from the SWF.
pub const DEFAULT_PUBLISHER_KEY: &'static str = "pub1isher1l0O";

/// Default key of the Fernus runtime.
pub const DEFAULT_FERNUS_KEY: &'static str = "kxk";

/// Errors of the Fernus string and SWF ciphers.
#[derive(Debug, Clone, Copy, PartialEq, Eq)]
pub enum CryptoError {
    /// Base64 decoding failed at the named step.
    Base64 { context: &'static str },
    /// The decrypted bytes are not UTF-8 at the named step.
    Utf8 { context: &'static str },
    /// The Blowfish key is unusable.
    InvalidKey(&'static str),
    /// The ciphertext is not a whole number of blocks.
    BadCiphertextLen(usize),
    /// The Blowfish key length is outside 4..=56 bytes.
    KeyInit,
    /// The PKCS#5 / PKCS#7 padding is malformed (the last byte is given).
    InvalidPadding(usize),
    /// The `fernusCode` does not have the expected form.
    InvalidFernusCode,
}

// ---------------------------------------------------------------------------
// Outside functions
// ---------------------------------------------------------------------------

/// Standard Base64 (RFC 4648 alphabet, `=` padding required) decoding of
/// `input`, or `None` when `input` is not valid standard Base64.
pub uninterp spec fn base64_standard_decode(input: Seq<u8>) -> Option<Seq<u8>>;

/// `base64::engine::general_purpose::STANDARD.decode`: decodes standard
/// Base64.  Stated: the result is the named decoding of the input (`None`
/// for the crate's `DecodeError`); nothing more is stated of the decoder.
#[verifier::external_body]
pub(crate) fn base64_decode(input: &[u8]) -> (r: Option<Vec<u8>>)
    ensures
        match base64_standard_decode(input@) {
            None => r is None,
            Some(d) => r matches Some(v) && v@ == d,
        },
{
    base64::engine::general_purpose::STANDARD.decode(input).ok()
}

/// Blowfish (big-endian words) decryption of one 8-byte block under `key`.
pub uninterp spec fn blowfish_block(key: Seq<u8>, block: Seq<u8>) -> Seq<u8>;

/// ECB decryption of a whole number of blocks with a block function.
pub open spec fn blowfish_ecb(key: Seq<u8>, data: Seq<u8>) -> Seq<u8> {
    Seq::new(
        data.len(),
        |i: int| blowfish_block(key, data.subrange(8 * (i / 8), 8 * (i / 8) + 8))[i % 8],
    )
}

/// `blowfish::Blowfish::new_from_slice` followed by `decrypt_blocks` over
/// `data` (a whole number of 8-byte blocks).  Stated: the key is refused
/// exactly when its length is outside 4..=56 bytes (as `new_from_slice`
/// does), and otherwise every block is replaced by the named block
/// decryption of it.
#[verifier::external_body]
pub(crate) fn blowfish_decrypt_blocks(key: &[u8], data: &[u8]) -> (r: Option<Vec<u8>>)
    requires
        data@.len() % 8 == 0,
    ensures
        (4 <= key@.len() <= 56) == r is Some,
        r matches Some(v) ==> v@.len() == data@.len() && forall|i: int|
            0 <= i < data@.len() ==> #[trigger] v@[i] == blowfish_block(
                key@,
                data@.subrange(8 * (i / 8), 8 * (i / 8) + 8),
            )[i % 8],
{
    let cipher = <blowfish::Blowfish as KeyInit>::new_from_slice(key).ok()?;
    let mut buf = data.to_vec();
    let (blocks, _) = Array::slice_as_chunks_mut(&mut buf);
    cipher.decrypt_blocks(blocks);
    Some(buf)
}

/// `String::from_utf8`: the text of `bytes`, or `None` when they are not
/// valid UTF-8.
#[verifier::external_body]
pub(crate) fn string_from_utf8(bytes: Vec<u8>) -> (r: Option<String>)
    ensures
        r is Some == valid_utf8(bytes@),
        r matches Some(s) ==> s@ == decode_utf8(bytes@) && encode_utf8(s@) == bytes@,
{
    String::from_utf8(bytes).ok()
}

// ---------------------------------------------------------------------------
// Model
// ---------------------------------------------------------------------------

/// Repeating-key XOR; an empty key leaves the input unchanged.
pub open spec fn spec_apply_xor(input: Seq<u8>, key: Seq<u8>) -> Seq<u8> {
    if key.len() == 0 {
        input
    } else {
        Seq::new(input.len(), |i: int| input[i] ^ key[i % (key.len() as int)])
    }
}

/// PKCS#5 unpadding of decrypted data (a non-empty whole number of
/// `bs`-byte blocks): the last byte `p` must be in `1..=bs` and the last
/// `p` bytes must all equal `p`.
pub open spec fn spec_unpad(d: Seq<u8>, bs: int) -> Result<Seq<u8>, CryptoError> {
    let p = d.last() as int;
    if p == 0 || p > bs {
        Err(CryptoError::InvalidPadding(p as usize))
    } else if exists|i: int| d.len() - p <= i < d.len() && d[i] != p {
        Err(CryptoError::InvalidPadding(p as usize))
    } else {
        Ok(d.subrange(0, d.len() - p))
    }
}

/// Blowfish-ECB decryption with PKCS#5 unpadding.
pub open spec fn spec_blowfish_ecb_decrypt(data: Seq<u8>, key: Seq<u8>) -> Result<Seq<u8>, CryptoError> {
    if key.len() == 0 {
        Err(CryptoError::InvalidKey("empty Blowfish key"))
    } else if data.len() % 8 != 0 {
        Err(CryptoError::BadCiphertextLen(data.len() as usize))
    } else if data.len() == 0 {
        Ok(Seq::empty())
    } else if !(4 <= key.len() <= 56) {
        Err(CryptoError::KeyInit)
    } else {
        spec_unpad(blowfish_ecb(key, data), 8)
    }
}

/// `fd2` on bytes: reverse the input byte by byte, decode it as Base64,
/// XOR with the key; the result must be UTF-8.
pub open spec fn spec_fd2(input: Seq<u8>, key: Seq<u8>) -> Result<Seq<u8>, CryptoError> {
    match base64_standard_decode(input.reverse()) {
        None => Err(CryptoError::Base64 { context: "fd2 base64" }),
        Some(d) => {
            let x = spec_apply_xor(d, key);
            if valid_utf8(x) {
                Ok(x)
            } else {
                Err(CryptoError::Utf8 { context: "fd2 utf8" })
            }
        },
    }
}

/// The bytes kept by the lenient Base64 reader: ASCII letters, digits,
/// `+`, `/` and `=`.
pub open spec fn is_b64_char(b: u8) -> bool {
    (0x30 <= b <= 0x39) || (0x41 <= b <= 0x5a) || (0x61 <= b <= 0x7a) || b == 0x2b || b == 0x2f
        || b == 0x3d
}

pub open spec fn b64_filter(s: Seq<u8>) -> Seq<u8>
    decreases s.len(),
{
    if s.len() == 0 {
        s
    } else if is_b64_char(s.last()) {
        b64_filter(s.drop_last()).push(s.last())
    } else {
        b64_filter(s.drop_last())
    }
}

/// Blowfish key of `fd1`: every key byte split into its high and low
/// nibble.
pub open spec fn nibble_key(k: Seq<u8>) -> Seq<u8> {
    Seq::new(2 * k.len(), |i: int| if i % 2 == 0 { k[i / 2] >> 4u8 } else { k[i / 2] & 0x0fu8 })
}

/// `fd1` on bytes: optionally `fd2`, then lenient Base64, Blowfish-ECB
/// with the nibble key and PKCS#5 unpadding; the result must be UTF-8.
pub open spec fn spec_fd1(data: Seq<u8>, key: Seq<u8>, apply_fd2: bool) -> Result<Seq<u8>, CryptoError> {
    let decoded = if apply_fd2 {
        spec_fd2(data, key)
    } else {
        Ok(data)
    };
    match decoded {
        Err(e) => Err(e),
        Ok(text) => match base64_standard_decode(b64_filter(text)) {
            None => Err(CryptoError::Base64 { context: "fd1 base64" }),
            Some(bytes) => match spec_blowfish_ecb_decrypt(bytes, nibble_key(key)) {
                Err(e) => Err(e),
                Ok(plain) => if valid_utf8(plain) {
                    Ok(plain)
                } else {
                    Err(CryptoError::Utf8 { context: "fd1 utf8" })
                },
            },
        },
    }
}

/// The string result of a byte-level model.
pub open spec fn text_result(r: Result<String, CryptoError>, m: Result<Seq<u8>, CryptoError>) -> bool {
    match m {
        Ok(b) => r matches Ok(s) && encode_utf8(s@) == b && s@ == decode_utf8(b),
        Err(e) => r == Err::<String, CryptoError>(e),
    }
}

/// Applying the repeating-key XOR twice with the same key gives the input
/// back.
pub proof fn law_apply_xor_involution(input: Seq<u8>, key: Seq<u8>)
    ensures
        spec_apply_xor(spec_apply_xor(input, key), key) == input,
{
    if key.len() > 0 {
        let once = spec_apply_xor(input, key);
        let twice = spec_apply_xor(once, key);
        assert forall|i: int| 0 <= i < input.len() implies twice[i] == input[i] by {
            let k = key[i % (key.len() as int)];
            let x = input[i];
            assert((x ^ k) ^ k == x) by (bit_vector);
        }
        assert(twice =~= input);
    }
}

// ---------------------------------------------------------------------------
// Implementation
// ---------------------------------------------------------------------------

/// The KK string cipher of the Fernus runtime.
pub struct KK;

impl KK {
    /// `fd2` (when `apply_fd2`), then lenient Base64 decode (bytes outside
    /// the Base64 alphabet are skipped), then Blowfish-ECB with the key
    /// made of the nibbles of `key_str`, and PKCS#5 unpadding.
    pub fn fd1(data: &str, key_str: &str, apply_fd2: bool) -> (r: Result<String, CryptoError>)
        ensures
            text_result(r, spec_fd1(data.spec_bytes(), key_str.spec_bytes(), apply_fd2)),
    {
        let decoded: Vec<u8> = if apply_fd2 {
            match Self::fd2(data, key_str) {
                Ok(s) => {
                    let sb = s.as_str().as_bytes();
                    assert(sb@ == spec_fd2(data.spec_bytes(), key_str.spec_bytes())->Ok_0);
                    copy_range(sb, 0, sb.len())
                },
                Err(e) => return Err(e),
            }
        } else {
            let db = data.as_bytes();
            copy_range(db, 0, db.len())
        };
        assert(decoded@ == if apply_fd2 {
            spec_fd2(data.spec_bytes(), key_str.spec_bytes())->Ok_0
        } else {
            data.spec_bytes()
        });
        let mut filtered: Vec<u8> = Vec::new();
        let mut i: usize = 0;
        while i < decoded.len()
            invariant
                i <= decoded@.len(),
                filtered@ == b64_filter(decoded@.subrange(0, i as int)),
            decreases decoded.len() - i,
        {
            let b = decoded[i];
            let ghost pre = decoded@.subrange(0, i as int);
            proof {
                assert(decoded@.subrange(0, i + 1).drop_last() =~= pre);
            }
            if (b >= 0x30 && b <= 0x39) || (b >= 0x41 && b <= 0x5a) || (b >= 0x61 && b <= 0x7a) || b
                == 0x2b || b == 0x2f || b == 0x3d {
                filtered.push(b);
            }
            i = i + 1;
        }
        assert(decoded@.subrange(0, decoded@.len() as int) =~= decoded@);
        assert(spec_fd1(data.spec_bytes(), key_str.spec_bytes(), apply_fd2) == match base64_standard_decode(b64_filter(decoded@)) {
            None => Err(CryptoError::Base64 { context: "fd1 base64" }),
            Some(bytes) => match spec_blowfish_ecb_decrypt(bytes, nibble_key(key_str.spec_bytes())) {
                Err(e) => Err(e),
                Ok(plain) => if valid_utf8(plain) {
                    Ok(plain)
                } else {
                    Err(CryptoError::Utf8 { context: "fd1 utf8" })
                },
            },
        });
        let bytes = match base64_decode(filtered.as_slice()) {
            Some(b) => b,
            None => return Err(CryptoError::Base64 { context: "fd1 base64" }),
        };
        let kb = key_str.as_bytes();
        let mut key_bytes: Vec<u8> = Vec::new();
        let mut j: usize = 0;
        while j < kb.len()
            invariant
                j <= kb@.len(),
                key_bytes@ =~= nibble_key(kb@.subrange(0, j as int)),
            decreases kb.len() - j,
        {
            key_bytes.push(kb[j] >> 4);
            key_bytes.push(kb[j] & 0x0f);
            j = j + 1;
        }
        assert(kb@.subrange(0, kb@.len() as int) =~= kb@);
        let decrypted = match Self::blowfish_ecb_decrypt(bytes.as_slice(), key_bytes.as_slice()) {
            Ok(d) => d,
            Err(e) => return Err(e),
        };
        match string_from_utf8(decrypted) {
            Some(s) => Ok(s),
            None => Err(CryptoError::Utf8 { context: "fd1 utf8" }),
        }
    }

    /// Reverse the input byte by byte, Base64-decode it, XOR the result
    /// with the repeating key and read it as UTF-8.
    pub fn fd2(input: &str, key: &str) -> (r: Result<String, CryptoError>)
        ensures
            text_result(r, spec_fd2(input.spec_bytes(), key.spec_bytes())),
    {
        let bytes = input.as_bytes();
        let mut reversed: Vec<u8> = Vec::new();
        let mut i: usize = bytes.len();
        while i > 0
            invariant
                i <= bytes@.len(),
                reversed@ =~= bytes@.subrange(i as int, bytes@.len() as int).reverse(),
            decreases i,
        {
            i = i - 1;
            reversed.push(bytes[i]);
        }
        assert(bytes@.subrange(0, bytes@.len() as int) =~= bytes@);
        let decoded = match base64_decode(reversed.as_slice()) {
            Some(d) => d,
            None => return Err(CryptoError::Base64 { context: "fd2 base64" }),
        };
        let xored = Self::apply_xor(decoded.as_slice(), key);
        match string_from_utf8(xored) {
            Some(s) => Ok(s),
            None => Err(CryptoError::Utf8 { context: "fd2 utf8" }),
        }
    }

    /// Repeating-key XOR of `input` with the bytes of `key`; an empty key
    /// leaves the input unchanged.
    pub fn apply_xor(input: &[u8], key: &str) -> (r: Vec<u8>)
        ensures
            r@ == spec_apply_xor(input@, key.spec_bytes()),
    {
        let key_bytes = key.as_bytes();
        if key_bytes.len() == 0 {
            return copy_range(input, 0, input.len());
        }
        let mut out: Vec<u8> = Vec::new();
        let mut i: usize = 0;
        while i < input.len()
            invariant
                key_bytes@.len() > 0,
                i <= input@.len(),
                out@.len() == i,
                forall|k: int| 0 <= k < i ==> out@[k] == input@[k] ^ key_bytes@[k % (key_bytes@.len() as int)],
            decreases input.len() - i,
        {
            out.push(input[i] ^ key_bytes[i % key_bytes.len()]);
            i = i + 1;
        }
        assert(out@ =~= spec_apply_xor(input@, key.spec_bytes()));
        out
    }

    /// Blowfish-ECB decryption followed by PKCS#5 unpadding.
    pub fn blowfish_ecb_decrypt(data: &[u8], key: &[u8]) -> (r: Result<Vec<u8>, CryptoError>)
        ensures
            match spec_blowfish_ecb_decrypt(data@, key@) {
                Ok(v) => r matches Ok(w) && w@ == v,
                Err(e) => r == Err::<Vec<u8>, CryptoError>(e),
            },
    {
        if key.len() == 0 {
            return Err(CryptoError::InvalidKey("empty Blowfish key"));
        }
        if data.len() % 8 != 0 {
            return Err(CryptoError::BadCiphertextLen(data.len()));
        }
        if data.len() == 0 {
            return Ok(Vec::new());
        }
        let result = match blowfish_decrypt_blocks(key, data) {
            Some(v) => v,
            None => return Err(CryptoError::KeyInit),
        };
        assert(result@ =~= blowfish_ecb(key@, data@));
        unpad(result, 8)
    }
}

/// PKCS#5 / PKCS#7 unpadding with block size `bs`.
pub fn unpad(mut d: Vec<u8>, bs: usize) -> (r: Result<Vec<u8>, CryptoError>)
    requires
        d@.len() >= bs > 0,
    ensures
        match spec_unpad(d@, bs as int) {
            Ok(v) => r matches Ok(w) && w@ == v,
            Err(e) => r == Err::<Vec<u8>, CryptoError>(e),
        },
{
    let pad_len = d[d.len() - 1] as usize;
    if pad_len == 0 || pad_len > bs {
        return Err(CryptoError::InvalidPadding(pad_len));
    }
    let start = d.len() - pad_len;
    let mut i = start;
    while i < d.len()
        invariant
            start <= i <= d@.len(),
            start == d@.len() - pad_len,
            pad_len == d@.last(),
            forall|k: int| start <= k < i ==> d@[k] == pad_len,
        decreases d.len() - i,
    {
        if d[i] as usize != pad_len {
            assert(d@.len() - (d@.last() as int) <= i < d@.len() && d@[i as int] != d@.last() as int);
            return Err(CryptoError::InvalidPadding(pad_len));
        }
        i = i + 1;
    }
    d.truncate(start);
    Ok(d)
}

/// The bytes of `bytes` that belong to the Base64 alphabet, in order.
pub fn b64_filtered(bytes: &[u8]) -> (r: Vec<u8>)
    ensures
        r@ == b64_filter(bytes@),
{
    let mut filtered: Vec<u8> = Vec::new();
    let mut i: usize = 0;
    while i < bytes.len()
        invariant
            i <= bytes@.len(),
            filtered@ == b64_filter(bytes@.subrange(0, i as int)),
        decreases bytes.len() - i,
    {
        let b = bytes[i];
        proof {
            assert(bytes@.subrange(0, i + 1).drop_last() =~= bytes@.subrange(0, i as int));
        }
        if (b >= 0x30 && b <= 0x39) || (b >= 0x41 && b <= 0x5a) || (b >= 0x61 && b <= 0x7a) || b
            == 0x2b || b == 0x2f || b == 0x3d {
            filtered.push(b);
        }
        i = i + 1;
    }
    assert(bytes@.subrange(0, bytes@.len() as int) =~= bytes@);
    filtered
}

/// Without the `fd2` layer, `fd1` reads only the Base64 alphabet of its
/// input: texts that agree once every other character is left out (white
/// space, `-`, ...) decrypt alike.
pub proof fn law_fd1_skips_non_alphabet(d1: Seq<u8>, d2: Seq<u8>, key: Seq<u8>)
    requires
        b64_filter(d1) == b64_filter(d2),
    ensures
        spec_fd1(d1, key, false) == spec_fd1(d2, key, false),
{
}

} // verus!
