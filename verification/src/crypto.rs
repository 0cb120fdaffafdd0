//! The publisher-key cipher of the Flash runtime (`KKDecryptor`) and the
//! search of ActionScript method bodies for the encrypted string it hides.
use vstd::prelude::*;
use vstd::utf8::{decode_utf8, encode_utf8, valid_utf8};
use crate::bytes::{copy_range, str_chars, string_from_utf8_lossy, utf8_lossy};
use crate::kk::{base64_decode, base64_standard_decode, blowfish_decrypt_blocks, blowfish_ecb, spec_apply_xor, spec_unpad, string_from_utf8, unpad, CryptoError, KK};
use crate::kry::is_ws;
use crate::pipeline::string_of_chars;
use crate::frns::byte_strings_are;

verus! {

/// Opcode of `pushstring`.
pub const PUSHSTRING_OPCODE: u8 = 44;

/// Key of the hidden publisher string.
pub const DECRYPT_KEY: &'static str = "pub1isher1l0O";

/// The characters of `s` that are not white space, in order.
pub open spec fn drop_ws(s: Seq<char>) -> Seq<char>
    decreases s.len(),
{
    if s.len() == 0 {
        s
    } else if is_ws(s.last()) {
        drop_ws(s.drop_last())
    } else {
        drop_ws(s.drop_last()).push(s.last())
    }
}

/// `fd2_transform`: the text reversed, white space dropped, Base64-decoded,
/// XORed with the repeating key and read as lossy UTF-8.  A non-empty
/// decoding cannot be XORed with an empty key.
pub open spec fn spec_fd2_transform(input: Seq<char>, key: Seq<u8>) -> Result<Seq<char>, CryptoError> {
    match base64_standard_decode(encode_utf8(drop_ws(input.reverse()))) {
        None => Err(CryptoError::Base64 { context: "fd2 base64" }),
        Some(d) => if key.len() == 0 && d.len() > 0 {
            Err(CryptoError::InvalidKey("empty XOR key"))
        } else {
            Ok(utf8_lossy(spec_apply_xor(d, key)))
        },
    }
}

/// `decrypt`: `fd2_transform`, white space dropped, Base64, Blowfish-ECB
/// with the key bytes and PKCS#7 unpadding, read as lossy UTF-8.  An empty
/// or ragged ciphertext, and a bad padding, are errors.
pub open spec fn spec_kkd_decrypt(data: Seq<char>, key: Seq<u8>) -> Result<Seq<char>, CryptoError> {
    match spec_fd2_transform(data, key) {
        Ok(t) => match base64_standard_decode(encode_utf8(drop_ws(t))) {
            None => Err(CryptoError::Base64 { context: "decrypt base64" }),
            Some(enc) => if !(4 <= key.len() <= 56) {
                Err(CryptoError::KeyInit)
            } else if enc.len() == 0 || enc.len() % 8 != 0 {
                Err(CryptoError::BadCiphertextLen(enc.len() as usize))
            } else {
                match spec_unpad(blowfish_ecb(key, enc), 8) {
                    Err(e) => Err(e),
                    Ok(p) => Ok(utf8_lossy(p)),
                }
            },
        },
        Err(e) => Err(e),
    }
}

pub open spec fn kkd_result(r: Result<String, CryptoError>, m: Result<Seq<char>, CryptoError>) -> bool {
    match m {
        Ok(t) => r matches Ok(s) && s@ == t,
        Err(e) => r == Err::<String, CryptoError>(e),
    }
}

fn without_ws(cs: &Vec<char>) -> (r: Vec<char>)
    ensures
        r@ == drop_ws(cs@),
{
    let mut out: Vec<char> = Vec::new();
    let mut k: usize = 0;
    while k < cs.len()
        invariant
            k <= cs@.len(),
            out@ == drop_ws(cs@.subrange(0, k as int)),
        decreases cs.len() - k,
    {
        assert(cs@.subrange(0, k + 1).drop_last() =~= cs@.subrange(0, k as int));
        let c = cs[k];
        if !crate::kry::is_ws_char(c) {
            out.push(c);
        }
        k = k + 1;
    }
    assert(cs@.subrange(0, cs@.len() as int) =~= cs@);
    out
}

/// The publisher-key cipher of the Flash runtime.
pub struct KKDecryptor;

impl KKDecryptor {
    /// Decrypt an encoded string: `fd2_transform`, Base64, Blowfish-ECB
    /// with PKCS#7 padding, lossy UTF-8; every failing step is an error.
    pub fn decrypt(&self, data: &str, key: &str) -> (r: Result<String, CryptoError>)
        ensures
            kkd_result(r, spec_kkd_decrypt(data@, encode_utf8(key@))),
    {
        let transformed = self.fd2_transform(data, key)?;
        let cleaned = string_of_chars(&without_ws(&str_chars(transformed.as_str())));
        let encrypted = match base64_decode(cleaned.as_str().as_bytes()) {
            Some(e) => e,
            None => return Err(CryptoError::Base64 { context: "decrypt base64" }),
        };
        let kb = key.as_bytes();
        if kb.len() < 4 || kb.len() > 56 {
            return Err(CryptoError::KeyInit);
        }
        if encrypted.len() == 0 || encrypted.len() % 8 != 0 {
            return Err(CryptoError::BadCiphertextLen(encrypted.len()));
        }
        let plain = match blowfish_decrypt_blocks(kb, encrypted.as_slice()) {
            Some(p) => p,
            None => return Err(CryptoError::KeyInit),
        };
        assert(plain@ =~= blowfish_ecb(kb@, encrypted@));
        let unpadded = unpad(plain, 8)?;
        Ok(string_from_utf8_lossy(unpadded.as_slice()))
    }

    /// Reverse the text, drop white space, Base64-decode, XOR with the
    /// repeating key and read as lossy UTF-8.
    fn fd2_transform(&self, input: &str, key: &str) -> (r: Result<String, CryptoError>)
        ensures
            kkd_result(r, spec_fd2_transform(input@, encode_utf8(key@))),
    {
        let cs = str_chars(input);
        let mut rev: Vec<char> = Vec::new();
        let mut i: usize = cs.len();
        while i > 0
            invariant
                i <= cs@.len(),
                rev@ == cs@.subrange(i as int, cs@.len() as int).reverse(),
            decreases i,
        {
            i = i - 1;
            rev.push(cs[i]);
            assert(cs@.subrange(i as int, cs@.len() as int).reverse() =~= cs@.subrange(i + 1, cs@.len() as int).reverse().push(
                cs@[i as int],
            ));
        }
        assert(cs@.subrange(0, cs@.len() as int) =~= cs@);
        let cleaned = string_of_chars(&without_ws(&rev));
        let decoded = match base64_decode(cleaned.as_str().as_bytes()) {
            Some(d) => d,
            None => return Err(CryptoError::Base64 { context: "fd2 base64" }),
        };
        if key.as_bytes().len() == 0 && decoded.len() > 0 {
            return Err(CryptoError::InvalidKey("empty XOR key"));
        }
        let xored = self.apply_xor(decoded.as_slice(), key);
        Ok(string_from_utf8_lossy(xored.as_slice()))
    }

    /// Repeating-key XOR of `data` with the bytes of `key` (the key must not
    /// be empty unless the data is).
    pub fn apply_xor(&self, data: &[u8], key: &str) -> (r: Vec<u8>)
        requires
            encode_utf8(key@).len() > 0 || data@.len() == 0,
        ensures
            r@ == spec_apply_xor(data@, encode_utf8(key@)),
    {
        KK::apply_xor(data, key)
    }
}

/// A variable-length integer of a method body (7 bits per byte, low bits
/// first, high bit set on all but the last byte) read at `p`, with the
/// position after it; bits that would land at or beyond the width of a
/// `usize` are dropped; `None` when the code ends before the last byte.
pub open spec fn u30c_from(code: Seq<u8>, p: int, k: nat, val: usize) -> Option<(usize, int)>
    decreases code.len() - p,
{
    if p < 0 || p >= code.len() {
        None
    } else {
        let b = code[p];
        let v2 = if 7 * k < usize::BITS {
            val | (((b & 0x7fu8) as usize) << ((7 * k) as usize))
        } else {
            val
        };
        if b & 0x80u8 == 0 {
            Some((v2, p + 1))
        } else {
            u30c_from(code, p + 1, k + 1, v2)
        }
    }
}

/// Read a variable-length integer of a method body at `*pc` and advance
/// `*pc` past it; `None` when the code ends inside it.
pub fn read_u30(code: &[u8], pc: &mut usize) -> (r: Option<usize>)
    requires
        *old(pc) <= code@.len(),
    ensures
        match u30c_from(code@, *old(pc) as int, 0, 0) {
            None => r is None,
            Some((v, q)) => r == Some(v) && *final(pc) == q,
        },
{
    let mut result: usize = 0;
    let mut shift: u32 = 0;
    let ghost mut k: nat = 0;
    loop
        invariant
            *pc <= code@.len(),
            7 * k < usize::BITS ==> shift == 7 * k,
            7 * k >= usize::BITS ==> shift >= usize::BITS,
            shift <= usize::BITS + 7,
            u30c_from(code@, *old(pc) as int, 0, 0) == u30c_from(code@, *pc as int, k, result),
        decreases code@.len() - *pc,
    {
        if *pc >= code.len() {
            return None;
        }
        let b = code[*pc];
        *pc = *pc + 1;
        if shift < usize::BITS {
            result = result | (((b & 0x7F) as usize) << (shift as usize));
            shift = shift + 7;
        }
        if b & 0x80 == 0 {
            return Some(result);
        }
        proof {
            k = k + 1;
        }
    }
}

/// The ABC data the search reads: the constant pool strings and the code
/// of every method body.
pub struct AbcModel {
    pub strings: Vec<Vec<u8>>,
    pub codes: Vec<Vec<u8>>,
}

/// `text` starts with `==`.
pub open spec fn has_prefix_marker(text: Seq<char>) -> bool {
    text.len() >= 2 && text[0] == '=' && text[1] == '='
}

proof fn lemma_u30c_advances(code: Seq<u8>, p: int, k: nat, val: usize)
    ensures
        u30c_from(code, p, k, val) matches Some((_, q)) ==> p < q <= code.len(),
    decreases code.len() - p,
{
    if !(p < 0 || p >= code.len()) {
        let b = code[p];
        let v2 = if 7 * k < usize::BITS {
            val | (((b & 0x7fu8) as usize) << ((7 * k) as usize))
        } else {
            val
        };
        if b & 0x80u8 != 0 {
            lemma_u30c_advances(code, p + 1, k + 1, v2);
        }
    }
}

/// Search of a method body from `pc`: the first `pushstring` whose
/// string is UTF-8 and starts with `==` is decrypted with
/// [`DECRYPT_KEY`]; indexes outside the pool and other strings are
/// skipped, and a `pushstring` whose operand is cut off by the end of the
/// code ends the search with nothing found.
pub open spec fn scan_from(strings: Seq<Seq<u8>>, code: Seq<u8>, pc: int) -> Result<Option<Seq<char>>, CryptoError>
    decreases code.len() - pc,
{
    if pc < 0 || pc >= code.len() {
        Ok(None)
    } else if code[pc] != PUSHSTRING_OPCODE {
        scan_from(strings, code, pc + 1)
    } else {
        match u30c_from(code, pc + 1, 0, 0) {
            None => Ok(None),
            Some((idx, pc2)) => if pc2 <= pc || pc2 > code.len() {
                Ok(None)
            } else if idx >= strings.len() || !valid_utf8(strings[idx as int]) || !has_prefix_marker(
                decode_utf8(strings[idx as int]),
            ) {
                scan_from(strings, code, pc2)
            } else {
                match spec_kkd_decrypt(decode_utf8(strings[idx as int]), encode_utf8(DECRYPT_KEY@)) {
                    Ok(t) => Ok(Some(t)),
                    Err(e) => Err(e),
                }
            },
        }
    }
}

pub open spec fn scan_result(r: Result<Option<String>, CryptoError>, m: Result<Option<Seq<char>>, CryptoError>) -> bool {
    match m {
        Ok(None) => r == Ok::<Option<String>, CryptoError>(None),
        Ok(Some(t)) => r matches Ok(Some(s)) && s@ == t,
        Err(e) => r == Err::<Option<String>, CryptoError>(e),
    }
}

pub open spec fn pool_views(abc: AbcModel) -> Seq<Seq<u8>> {
    abc.strings@.map_values(|s: Vec<u8>| s@)
}

/// Find the first encrypted `==` string pushed by a method body and
/// decrypt it.
pub fn scan_method_body(abc: &AbcModel, code: &[u8]) -> (r: Result<Option<String>, CryptoError>)
    ensures
        scan_result(r, scan_from(pool_views(*abc), code@, 0)),
{
    let ghost strs = pool_views(*abc);
    let decryptor = KKDecryptor;
    let mut pc: usize = 0;
    while pc < code.len()
        invariant
            pc <= code@.len(),
            strs == pool_views(*abc),
            scan_from(strs, code@, 0) == scan_from(strs, code@, pc as int),
        decreases code.len() - pc,
    {
        let opcode = code[pc];
        pc = pc + 1;
        if opcode != PUSHSTRING_OPCODE {
            continue;
        }
        proof {
            lemma_u30c_advances(code@, pc as int, 0, 0);
        }
        let idx = match read_u30(code, &mut pc) {
            None => return Ok(None),
            Some(v) => v,
        };
        if idx >= abc.strings.len() {
            continue;
        }
        let raw = &abc.strings[idx];
        assert(raw@ == strs[idx as int]);
        let text = match string_from_utf8(copy_range(raw.as_slice(), 0, raw.len())) {
            Some(t) => t,
            None => {
                assert(raw@.subrange(0, raw@.len() as int) =~= raw@);
                continue;
            },
        };
        assert(raw@.subrange(0, raw@.len() as int) =~= raw@);
        let cs = str_chars(text.as_str());
        if !(cs.len() >= 2 && cs[0] == '=' && cs[1] == '=') {
            continue;
        }
        return match decryptor.decrypt(text.as_str(), DECRYPT_KEY) {
            Ok(s) => Ok(Some(s)),
            Err(e) => Err(e),
        };
    }
    Ok(None)
}

// ---------------------------------------------------------------------------
// Whole SWF
// ---------------------------------------------------------------------------

/// The part of a decompressed SWF that the search reads: its version and
/// its tag stream.
pub struct SwfBody {
    pub version: u8,
    pub data: Vec<u8>,
}

/// Errors of [`check_process`].
#[derive(Debug, Clone, Copy, PartialEq, Eq)]
pub enum CheckError {
    /// The tag stream does not parse.
    Parse,
    /// A `DoABC2` block does not parse.
    Abc,
    /// The hidden string does not decrypt.
    Crypto(CryptoError),
}

/// The tags of a SWF tag stream, in order: the ABC bytes of each `DoABC2`
/// tag, `None` for every other tag; `None` as a whole when the stream does
/// not parse.
pub uninterp spec fn swf_doabc2_tags(version: u8, data: Seq<u8>) -> Option<Seq<Option<Seq<u8>>>>;

/// The constant pool strings and the method body codes of an ABC block,
/// `None` when it does not parse.
pub uninterp spec fn abc_file(data: Seq<u8>) -> Option<(Seq<Seq<u8>>, Seq<Seq<u8>>)>;

pub open spec fn opt_bytes_are(v: Seq<Option<Vec<u8>>>, m: Seq<Option<Seq<u8>>>) -> bool {
    v.len() == m.len() && forall|k: int|
        0 <= k < v.len() ==> match (#[trigger] v[k], m[k]) {
            (None, None) => true,
            (Some(a), Some(b)) => a@ == b,
            _ => false,
        }
}

/// `swf::parse_swf` on a buffer with a header of the given version and the
/// given tag stream; each `DoAbc2` tag's data, `None` for other tags.
/// Stated: the result is the named tag list of the arguments (`None` for
/// the crate's parse error).
#[verifier::external_body]
fn doabc2_tags(version: u8, data: &[u8]) -> (r: Option<Vec<Option<Vec<u8>>>>)
    ensures
        match swf_doabc2_tags(version, data@) {
            None => r is None,
            Some(t) => r matches Some(v) && opt_bytes_are(v@, t),
        },
{
    let buf = swf::SwfBuf { header: swf::HeaderExt::default_with_swf_version(version), data: data.to_vec() };
    let parsed = swf::parse_swf(&buf).ok()?;
    Some(parsed.tags.iter().map(|t| match t {
        swf::Tag::DoAbc2(a) => Some(a.data.to_vec()),
        _ => None,
    }).collect())
}

/// `swf::avm2::read::Reader::new(data).read()`: the constant pool strings
/// and the code of each method body.  Stated: the result is the named
/// parse of `data` (`None` for the crate's error).
#[verifier::external_body]
fn read_abc(data: &[u8]) -> (r: Option<AbcModel>)
    ensures
        match abc_file(data@) {
            None => r is None,
            Some((s, c)) => r matches Some(m) && byte_strings_are(m.strings@, s) && byte_strings_are(m.codes@, c),
        },
{
    let abc = swf::avm2::read::Reader::new(data).read().ok()?;
    Some(AbcModel { strings: abc.constant_pool.strings, codes: abc.method_bodies.into_iter().map(|b| b.code).collect() })
}

/// The method bodies searched in order; the first that finds or fails
/// decides.
pub open spec fn check_bodies(strings: Seq<Seq<u8>>, codes: Seq<Seq<u8>>) -> Result<Option<Seq<char>>, CryptoError>
    decreases codes.len(),
{
    if codes.len() == 0 {
        Ok(None)
    } else {
        match scan_from(strings, codes[0], 0) {
            Ok(None) => check_bodies(strings, codes.drop_first()),
            other => other,
        }
    }
}

/// The `DoABC2` tags searched in order.
pub open spec fn check_tags(tags: Seq<Option<Seq<u8>>>) -> Result<Option<Seq<char>>, CheckError>
    decreases tags.len(),
{
    if tags.len() == 0 {
        Ok(None)
    } else {
        match tags[0] {
            None => check_tags(tags.drop_first()),
            Some(d) => match abc_file(d) {
                None => Err(CheckError::Abc),
                Some((strs, codes)) => match check_bodies(strs, codes) {
                    Ok(None) => check_tags(tags.drop_first()),
                    Ok(Some(t)) => Ok(Some(t)),
                    Err(e) => Err(CheckError::Crypto(e)),
                },
            },
        }
    }
}

/// The first decryptable hidden string of a SWF.
pub open spec fn spec_check_process(version: u8, data: Seq<u8>) -> Result<Option<Seq<char>>, CheckError> {
    match swf_doabc2_tags(version, data) {
        None => Err(CheckError::Parse),
        Some(t) => check_tags(t),
    }
}

pub open spec fn check_result(r: Result<Option<String>, CheckError>, m: Result<Option<Seq<char>>, CheckError>) -> bool {
    match m {
        Ok(None) => r == Ok::<Option<String>, CheckError>(None),
        Ok(Some(t)) => r matches Ok(Some(s)) && s@ == t,
        Err(e) => r == Err::<Option<String>, CheckError>(e),
    }
}

fn check_bodies_exec(abc: &AbcModel) -> (r: Result<Option<String>, CryptoError>)
    ensures
        scan_result(r, check_bodies(pool_views(*abc), abc.codes@.map_values(|c: Vec<u8>| c@))),
{
    let ghost codes = abc.codes@.map_values(|c: Vec<u8>| c@);
    let mut k: usize = 0;
    assert(codes.subrange(0, codes.len() as int) =~= codes);
    while k < abc.codes.len()
        invariant
            k <= abc.codes@.len(),
            codes == abc.codes@.map_values(|c: Vec<u8>| c@),
            check_bodies(pool_views(*abc), codes) == check_bodies(pool_views(*abc), codes.subrange(k as int, codes.len() as int)),
        decreases abc.codes.len() - k,
    {
        let ghost rest = codes.subrange(k as int, codes.len() as int);
        assert(rest[0] == abc.codes@[k as int]@);
        assert(rest.drop_first() =~= codes.subrange(k + 1, codes.len() as int));
        match scan_method_body(abc, abc.codes[k].as_slice()) {
            Ok(None) => {},
            other => return other,
        }
        k = k + 1;
    }
    Ok(None)
}

/// Extract the first decryptable `==` string pushed by the method bodies
/// of the `DoABC2` tags of a SWF.
pub fn check_process(buf: &SwfBody) -> (r: Result<Option<String>, CheckError>)
    ensures
        check_result(r, spec_check_process(buf.version, buf.data@)),
{
    let tags = match doabc2_tags(buf.version, buf.data.as_slice()) {
        None => return Err(CheckError::Parse),
        Some(t) => t,
    };
    let ghost tm = swf_doabc2_tags(buf.version, buf.data@)->0;
    let mut k: usize = 0;
    assert(tm.subrange(0, tm.len() as int) =~= tm);
    while k < tags.len()
        invariant
            k <= tags@.len(),
            opt_bytes_are(tags@, tm),
            tm == swf_doabc2_tags(buf.version, buf.data@)->0,
            swf_doabc2_tags(buf.version, buf.data@) is Some,
            check_tags(tm) == check_tags(tm.subrange(k as int, tm.len() as int)),
        decreases tags.len() - k,
    {
        let ghost rest = tm.subrange(k as int, tm.len() as int);
        assert(rest[0] == tm[k as int]);
        assert(rest.drop_first() =~= tm.subrange(k + 1, tm.len() as int));
        if let Some(data) = &tags[k] {
            let abc = match read_abc(data.as_slice()) {
                None => return Err(CheckError::Abc),
                Some(a) => a,
            };
            let ghost am = abc_file(data@)->0;
            assert(pool_views(abc) =~= am.0);
            assert(abc.codes@.map_values(|c: Vec<u8>| c@) =~= am.1);
            match check_bodies_exec(&abc) {
                Ok(None) => {},
                Ok(Some(s)) => return Ok(Some(s)),
                Err(e) => return Err(CheckError::Crypto(e)),
            }
        }
        k = k + 1;
    }
    Ok(None)
}

} // verus!
