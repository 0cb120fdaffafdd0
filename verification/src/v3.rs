//! v3 Fernus Z-Kitap (Flutter + Enigma Virtual Box) keys and AES-256-CBC.
use vstd::prelude::*;
use vstd::utf8::{decode_utf8, encode_utf8, valid_utf8};
use vstd::string::StringSliceAdditionalSpecFns;
use aes::cipher::{Array, BlockCipherDecrypt, KeyInit};
use crate::bytes::{
    copy_range, find_bytes, first_occurrence, slice_range, str_chars, string_push,
    string_push_str,
};
use crate::kk::{base64_decode, base64_standard_decode, spec_unpad, string_from_utf8, unpad};
use crate::kry::{parse_i64, parse_i64_chars, split_at_char, split_chars, trim, trim_chars};

verus! {

/// Errors of the v3 key extraction and decryption.
#[derive(Debug, Clone, PartialEq, Eq)]
pub enum V3Error {
    ArrayMismatch { tag: char, expected: &'static str },
    ArrayNotFound(String),
    ArrayUnterminated,
    BadInt,
    RegexCompile,
    IvNotFound,
    Utf8,
    AesKeyLen(usize),
    AesIvLen(usize),
    AesBlockLen(usize),
    InvalidPkcs7,
}

// ---------------------------------------------------------------------------
// Outside functions
// ---------------------------------------------------------------------------

/// AES-256 decryption of one 16-byte block under a 32-byte key.
pub uninterp spec fn aes256_block(key: Seq<u8>, block: Seq<u8>) -> Seq<u8>;

/// `aes::Aes256::new_from_slice` followed by `decrypt_blocks` over `data`
/// (a whole number of 16-byte blocks).  Stated: every block is replaced by
/// the named AES-256 block decryption of it.
#[verifier::external_body]
pub(crate) fn aes256_decrypt_blocks(key: &[u8], data: &[u8]) -> (r: Vec<u8>)
    requires
        key@.len() == 32,
        data@.len() % 16 == 0,
    ensures
        r@.len() == data@.len(),
        forall|i: int|
            0 <= i < data@.len() ==> #[trigger] r@[i] == aes256_block(
                key@,
                data@.subrange(16 * (i / 16), 16 * (i / 16) + 16),
            )[i % 16],
{
    let cipher = <aes::Aes256 as KeyInit>::new_from_slice(key).unwrap();
    let mut buf = data.to_vec();
    let (blocks, _) = Array::slice_as_chunks_mut(&mut buf);
    cipher.decrypt_blocks(blocks);
    buf
}

/// First capture group of the first match of the regular expression
/// `pattern` in `data`; `Err` when the pattern does not compile.
pub uninterp spec fn regex_capture1(pattern: Seq<char>, data: Seq<u8>) -> Result<Option<Seq<u8>>, ()>;

/// `regex::bytes::Regex::new` then `captures` and `get(1)`.  Stated: the
/// result is the named first capture group of the first match.
#[verifier::external_body]
pub(crate) fn regex_first_capture(pattern: &str, data: &[u8]) -> (r: Result<Option<Vec<u8>>, ()>)
    ensures
        match regex_capture1(pattern@, data@) {
            Err(()) => r is Err,
            Ok(None) => r == Ok::<Option<Vec<u8>>, ()>(None),
            Ok(Some(c)) => r matches Ok(Some(v)) && v@ == c,
        },
{
    let re = regex::bytes::Regex::new(pattern).map_err(|_| ())?;
    Ok(re.captures(data).and_then(|caps| caps.get(1)).map(|m| m.as_bytes().to_vec()))
}

// ---------------------------------------------------------------------------
// Model
// ---------------------------------------------------------------------------

/// AES-256-CBC decryption of a whole number of blocks: each plaintext block
/// is the block decryption XOR the previous ciphertext block (the IV for
/// the first).
pub open spec fn aes_cbc(key: Seq<u8>, iv: Seq<u8>, data: Seq<u8>) -> Seq<u8> {
    Seq::new(
        data.len(),
        |i: int|
            aes256_block(key, data.subrange(16 * (i / 16), 16 * (i / 16) + 16))[i % 16] ^ (if i < 16 {
                iv[i]
            } else {
                data[i - 16]
            }),
    )
}

/// AES-256-CBC decryption with PKCS#7 unpadding.
pub open spec fn spec_aes_cbc_decrypt(data: Seq<u8>, key: Seq<u8>, iv: Seq<u8>) -> Result<Seq<u8>, V3Error> {
    if key.len() != 32 {
        Err(V3Error::AesKeyLen(key.len() as usize))
    } else if iv.len() != 16 {
        Err(V3Error::AesIvLen(iv.len() as usize))
    } else if data.len() == 0 {
        Ok(Seq::empty())
    } else if data.len() % 16 != 0 {
        Err(V3Error::AesBlockLen(data.len() as usize))
    } else {
        match spec_unpad(aes_cbc(key, iv, data), 16) {
            Ok(v) => Ok(v),
            Err(_) => Err(V3Error::InvalidPkcs7),
        }
    }
}

/// `createKey`: the key followed by as much of `keystr` as makes 32 bytes,
/// cut to 32 bytes.
pub open spec fn spec_create_key(key: Seq<u8>, keystr: Seq<u8>) -> Seq<u8> {
    if key.len() < 32 {
        let needed = 32 - key.len();
        let take = if needed < keystr.len() {
            needed
        } else {
            keystr.len() as int
        };
        key + keystr.subrange(0, take)
    } else {
        key.subrange(0, 32)
    }
}

/// Base64 text of `decryptString`: the characters reversed, then `=`
/// appended until the byte length is a multiple of 4.
pub open spec fn padded_reversed(s: Seq<char>) -> Seq<u8> {
    let b = encode_utf8(s.reverse());
    let k = (4 - b.len() % 4) % 4;
    b + Seq::new(k as nat, |i: int| 0x3du8)
}

/// `decryptString`: Base64 of the reversed text (`None` when that is not
/// Base64), then AES-256-CBC.
pub open spec fn spec_decrypt_string(s: Seq<char>, key: Seq<u8>, iv: Seq<u8>) -> Option<
    Result<Seq<u8>, V3Error>,
> {
    match base64_standard_decode(padded_reversed(s)) {
        None => None,
        Some(c) => Some(spec_aes_cbc_decrypt(c, key, iv)),
    }
}

/// Text of the Dart array `_envied<suffix>_keyStr = <int>[...]`: from
/// after its header up to the first `]`.
pub open spec fn envied_header(suffix: Seq<char>) -> Seq<u8> {
    encode_utf8("_envied"@) + encode_utf8(suffix) + encode_utf8("_keyStr = <int>["@)
}

/// The integers of a comma separated list, white space trimmed, empty
/// items skipped; `None` when an item is not an `i64`.
pub open spec fn ints_of(items: Seq<Seq<char>>) -> Option<Seq<i64>>
    decreases items.len(),
{
    if items.len() == 0 {
        Some(Seq::empty())
    } else {
        let t = trim(items[0]);
        let head: Option<Seq<i64>> = if t.len() == 0 {
            Some(Seq::empty())
        } else {
            match parse_i64(t) {
                Some(v) => Some(seq![v]),
                None => None,
            }
        };
        match (head, ints_of(items.drop_first())) {
            (Some(h), Some(r)) => Some(h + r),
            _ => None,
        }
    }
}

/// Result of reading an envied array (the error kind only).
pub enum EnviedArray {
    Ints(Seq<i64>),
    NotFound,
    Unterminated,
    NotUtf8,
    BadInt,
}

#[verifier::opaque]
pub open spec fn spec_envied_array(data: Seq<u8>, suffix: Seq<char>) -> EnviedArray {
    match first_occurrence(data, envied_header(suffix)) {
        None => EnviedArray::NotFound,
        Some(idx) => {
            let start = idx + envied_header(suffix).len();
            let tail = data.subrange(start, data.len() as int);
            match first_occurrence(tail, seq![0x5du8]) {
                None => EnviedArray::Unterminated,
                Some(end) => {
                    let text = tail.subrange(0, end);
                    if !valid_utf8(text) {
                        EnviedArray::NotUtf8
                    } else {
                        match ints_of(split_at_char(decode_utf8(text), ',')) {
                            Some(v) => EnviedArray::Ints(v),
                            None => EnviedArray::BadInt,
                        }
                    }
                },
            }
        },
    }
}

/// Low bytes of the XOR of two integer arrays, as Latin-1 characters,
/// NUL characters left out.
pub open spec fn keystr_chars(k: Seq<i64>, d: Seq<i64>) -> Seq<char>
    decreases k.len(),
{
    if k.len() == 0 || d.len() == 0 {
        Seq::empty()
    } else {
        let c = (((k[0] ^ d[0]) & 0xff) as u8) as char;
        let rest = keystr_chars(k.drop_first(), d.drop_first());
        if c == '\0' {
            rest
        } else {
            seq![c] + rest
        }
    }
}

// ---------------------------------------------------------------------------
// Implementation
// ---------------------------------------------------------------------------

/// Extract the key string from `kernel_blob.bin`: the XOR of the
/// `_enviedkey_keyStr` and `_envieddata_keyStr` Dart arrays, one Latin-1
/// character per element (low byte), NUL characters left out.
pub fn extract_keystr(kernel_data: &[u8]) -> (r: Result<String, V3Error>)
    ensures
        match (spec_envied_array(kernel_data@, "key"@), spec_envied_array(kernel_data@, "data"@)) {
            (EnviedArray::Ints(k), EnviedArray::Ints(d)) => if k.len() != d.len() {
                r == Err::<String, V3Error>(
                    V3Error::ArrayMismatch { tag: ' ', expected: "key/data length" },
                )
            } else {
                r matches Ok(s) && s@ == keystr_chars(k, d)
            },
            (EnviedArray::Ints(_), _) => r matches Err(V3Error::ArrayNotFound(_)),
            _ => r matches Err(V3Error::ArrayNotFound(_)),
        },
{
    let key_ints = match parse_envied_array(kernel_data, "key") {
        Ok(v) => v,
        Err(_) => return Err(V3Error::ArrayNotFound("key".to_owned())),
    };
    let data_ints = match parse_envied_array(kernel_data, "data") {
        Ok(v) => v,
        Err(_) => return Err(V3Error::ArrayNotFound("data".to_owned())),
    };
    if key_ints.len() != data_ints.len() {
        return Err(V3Error::ArrayMismatch { tag: ' ', expected: "key/data length" });
    }
    let ghost k = key_ints@;
    let ghost d = data_ints@;
    let mut out = String::new();
    let n = key_ints.len();
    let mut i: usize = n;
    let mut rev: Vec<char> = Vec::new();
    // Walk backwards so that each character is prepended to the model.
    while i > 0
        invariant
            i <= n == k.len() == d.len(),
            key_ints@ == k,
            data_ints@ == d,
            rev@.reverse() == keystr_chars(k.subrange(i as int, n as int), d.subrange(i as int, n as int)),
        decreases i,
    {
        i = i - 1;
        let c = (((key_ints[i] ^ data_ints[i]) & 0xff) as u8) as char;
        let ghost ks = k.subrange(i as int, n as int);
        let ghost ds = d.subrange(i as int, n as int);
        assert(ks.drop_first() =~= k.subrange(i + 1, n as int));
        assert(ds.drop_first() =~= d.subrange(i + 1, n as int));
        if c != '\0' {
            let ghost before = rev@;
            rev.push(c);
            assert(rev@.reverse() =~= seq![c] + before.reverse());
        }
    }
    assert(k.subrange(0, n as int) =~= k);
    assert(d.subrange(0, n as int) =~= d);
    let mut j: usize = rev.len();
    while j > 0
        invariant
            j <= rev@.len(),
            out@ == rev@.subrange(j as int, rev@.len() as int).reverse(),
        decreases j,
    {
        j = j - 1;
        string_push(&mut out, rev[j]);
        assert(rev@.subrange(j as int, rev@.len() as int).reverse() =~= rev@.subrange(
            j + 1,
            rev@.len() as int,
        ).reverse().push(rev@[j as int]));
    }
    assert(rev@.subrange(0, rev@.len() as int) =~= rev@);
    Ok(out)
}

/// Read the Dart envied array `_envied<suffix>_keyStr = <int>[...]`.
/// Values are `i64`: the masked integers may exceed `i32`.
pub fn parse_envied_array(kernel_data: &[u8], suffix: &str) -> (r: Result<Vec<i64>, V3Error>)
    ensures
        match spec_envied_array(kernel_data@, suffix@) {
            EnviedArray::Ints(v) => r matches Ok(w) && w@ == v,
            EnviedArray::NotFound => r matches Err(V3Error::ArrayNotFound(s)) && s@ == "_envied"@ + suffix@
                + "_keyStr"@,
            EnviedArray::Unterminated => r == Err::<Vec<i64>, V3Error>(V3Error::ArrayUnterminated),
            EnviedArray::NotUtf8 => r == Err::<Vec<i64>, V3Error>(V3Error::Utf8),
            EnviedArray::BadInt => r == Err::<Vec<i64>, V3Error>(V3Error::BadInt),
        },
{
    reveal(spec_envied_array);
    let mut name = "_envied".to_owned();
    string_push_str(&mut name, suffix);
    string_push_str(&mut name, "_keyStr");
    let mut needle = name.clone();
    string_push_str(&mut needle, " = <int>[");
    let nb = needle.as_str().as_bytes();
    proof {
        reveal_strlit("_envied");
        reveal_strlit("_keyStr");
        reveal_strlit(" = <int>[");
        reveal_strlit("_keyStr = <int>[");
        assert("_keyStr"@ + " = <int>["@ =~= "_keyStr = <int>["@);
        crate::bytes::lemma_encode_utf8_concat("_envied"@, suffix@);
        crate::bytes::lemma_encode_utf8_concat("_envied"@ + suffix@, "_keyStr = <int>["@);
        assert("_envied"@ + suffix@ + "_keyStr"@ + " = <int>["@ =~= ("_envied"@ + suffix@) + "_keyStr = <int>["@);
    }
    assert(nb@ == envied_header(suffix@));
    assert(nb@.len() > 0);
    let idx = match find_bytes(kernel_data, nb) {
        Some(i) => i,
        None => return Err(V3Error::ArrayNotFound(name)),
    };
    assert(kernel_data@.len() == kernel_data.len());
    let start = idx + nb.len();
    let tail = slice_range(kernel_data, start, kernel_data.len());
    let close: [u8; 1] = [0x5d];
    assert(close@ == seq![0x5du8]);
    let end = match find_bytes(tail, close.as_slice()) {
        Some(e) => e,
        None => return Err(V3Error::ArrayUnterminated),
    };
    let text_bytes = copy_range(tail, 0, end);
    let text = match string_from_utf8(text_bytes) {
        Some(t) => t,
        None => return Err(V3Error::Utf8),
    };
    let chars = str_chars(text.as_str());
    let items = split_chars(&chars, ',');
    let ghost model = split_at_char(chars@, ',');
    let mut ints: Vec<i64> = Vec::new();
    let mut i: usize = 0;
    assert(model.subrange(0, model.len() as int) =~= model);
    while i < items.len()
        invariant
            i <= items@.len() == model.len(),
            forall|j: int| 0 <= j < items@.len() ==> (#[trigger] items@[j])@ == model[j],
            spec_envied_array(kernel_data@, suffix@) == (match ints_of(model) {
                Some(v) => EnviedArray::Ints(v),
                None => EnviedArray::BadInt,
            }),
            ints_of(model) == match ints_of(model.subrange(i as int, model.len() as int)) {
                Some(r) => Some(ints@ + r),
                None => None,
            },
        decreases items.len() - i,
    {
        let ghost rest = model.subrange(i as int, model.len() as int);
        assert(rest.drop_first() =~= model.subrange(i + 1, model.len() as int));
        assert(rest[0] == model[i as int]);
        let t = trim_chars(&items[i]);
        if t.len() > 0 {
            match parse_i64_chars(&t) {
                Some(v) => {
                    proof {
                        if let Some(r) = ints_of(rest.drop_first()) {
                            assert(ints@ + (seq![v] + r) =~= ints@.push(v) + r);
                        }
                    }
                    ints.push(v);
                },
                None => return Err(V3Error::BadInt),
            }
        } else {
            proof {
                if let Some(r) = ints_of(rest.drop_first()) {
                    assert(Seq::<i64>::empty() + r =~= r);
                }
            }
        }
        i = i + 1;
    }
    assert(model.subrange(i as int, model.len() as int) =~= Seq::<Seq<char>>::empty());
    assert(ints@ + Seq::<i64>::empty() =~= ints@);
    Ok(ints)
}

/// `createKey`: the key followed by as much of `keystr` as makes 32 bytes,
/// cut to 32 bytes.
pub fn create_key(key: &str, keystr: &str) -> (r: Vec<u8>)
    ensures
        r@ == spec_create_key(key.spec_bytes(), keystr.spec_bytes()),
{
    let key_bytes = key.as_bytes();
    let keystr_bytes = keystr.as_bytes();
    let mut result = copy_range(key_bytes, 0, key_bytes.len());
    if result.len() < 32 {
        let needed = 32 - result.len();
        let take = if needed < keystr_bytes.len() {
            needed
        } else {
            keystr_bytes.len()
        };
        let extra = slice_range(keystr_bytes, 0, take);
        crate::bytes::append_bytes(&mut result, extra);
    }
    result.truncate(32);
    proof {
        if key_bytes@.len() < 32 {
            assert(result@ =~= spec_create_key(key.spec_bytes(), keystr.spec_bytes()));
        }
    }
    result
}

/// `decryptString`: reverse the text, pad it with `=` to a multiple of four
/// bytes, Base64-decode it and decrypt it with AES-256-CBC.
pub fn decrypt_string(encrypted: &str, key: &[u8], iv: &[u8]) -> (r: Result<Vec<u8>, V3Error>)
    ensures
        match spec_decrypt_string(encrypted@, key@, iv@) {
            None => r matches Err(V3Error::ArrayNotFound(_)),
            Some(Ok(v)) => r matches Ok(w) && w@ == v,
            Some(Err(e)) => r == Err::<Vec<u8>, V3Error>(e),
        },
{
    let chars = str_chars(encrypted);
    let mut reversed = String::new();
    let mut i: usize = chars.len();
    while i > 0
        invariant
            i <= chars@.len(),
            reversed@ == chars@.subrange(i as int, chars@.len() as int).reverse(),
        decreases i,
    {
        i = i - 1;
        string_push(&mut reversed, chars[i]);
        assert(chars@.subrange(i as int, chars@.len() as int).reverse() =~= chars@.subrange(
            i + 1,
            chars@.len() as int,
        ).reverse().push(chars@[i as int]));
    }
    assert(chars@.subrange(0, chars@.len() as int) =~= chars@);
    let rb = reversed.as_str().as_bytes();
    let mut raw = copy_range(rb, 0, rb.len());
    let ghost b = raw@;
    let pad = (4 - rb.len() % 4) % 4;
    let mut k: usize = 0;
    while k < pad
        invariant
            k <= pad,
            raw@ == b + Seq::new(k as nat, |i: int| 0x3du8),
        decreases pad - k,
    {
        raw.push(0x3d);
        k = k + 1;
        assert(raw@ =~= b + Seq::new(k as nat, |i: int| 0x3du8));
    }
    assert(raw@ =~= padded_reversed(encrypted@));
    let ciphertext = match base64_decode(raw.as_slice()) {
        Some(c) => c,
        None => return Err(V3Error::ArrayNotFound("decrypt_string: base64 decode".to_owned())),
    };
    aes_cbc_decrypt(ciphertext.as_slice(), key, iv)
}

/// `decryptByte`: AES-256-CBC decryption and PKCS#7 unpadding.
pub fn decrypt_bytes(data: &[u8], key: &[u8], iv: &[u8]) -> (r: Result<Vec<u8>, V3Error>)
    ensures
        match spec_aes_cbc_decrypt(data@, key@, iv@) {
            Ok(v) => r matches Ok(w) && w@ == v,
            Err(e) => r == Err::<Vec<u8>, V3Error>(e),
        },
{
    aes_cbc_decrypt(data, key, iv)
}

/// AES-256-CBC decryption and PKCS#7 unpadding.
pub fn aes_cbc_decrypt(data: &[u8], key: &[u8], iv: &[u8]) -> (r: Result<Vec<u8>, V3Error>)
    ensures
        match spec_aes_cbc_decrypt(data@, key@, iv@) {
            Ok(v) => r matches Ok(w) && w@ == v,
            Err(e) => r == Err::<Vec<u8>, V3Error>(e),
        },
{
    if key.len() != 32 {
        return Err(V3Error::AesKeyLen(key.len()));
    }
    if iv.len() != 16 {
        return Err(V3Error::AesIvLen(iv.len()));
    }
    if data.len() == 0 {
        return Ok(Vec::new());
    }
    if data.len() % 16 != 0 {
        return Err(V3Error::AesBlockLen(data.len()));
    }
    let dec = aes256_decrypt_blocks(key, data);
    let mut buf: Vec<u8> = Vec::new();
    let mut i: usize = 0;
    while i < data.len()
        invariant
            i <= data@.len(),
            dec@.len() == data@.len(),
            iv@.len() == 16,
            buf@.len() == i,
            forall|k: int|
                0 <= k < i ==> #[trigger] buf@[k] == dec@[k] ^ (if k < 16 {
                    iv@[k]
                } else {
                    data@[k - 16]
                }),
        decreases data.len() - i,
    {
        let prev = if i < 16 {
            iv[i]
        } else {
            data[i - 16]
        };
        buf.push(dec[i] ^ prev);
        i = i + 1;
    }
    assert(buf@ =~= aes_cbc(key@, iv@, data@));
    match unpad(buf, 16) {
        Ok(v) => Ok(v),
        Err(_) => Err(V3Error::InvalidPkcs7),
    }
}

/// The text between `pat` (first occurrence) and the next `'`.
pub open spec fn iv_after(data: Seq<u8>, pat: Seq<u8>) -> Option<Seq<u8>> {
    match first_occurrence(data, pat) {
        None => None,
        Some(idx) => {
            let tail = data.subrange(idx + pat.len(), data.len() as int);
            match first_occurrence(tail, seq![0x27u8]) {
                None => None,
                Some(e) => Some(tail.subrange(0, e)),
            }
        },
    }
}

/// Pattern of the regular-expression fallback of [`extract_iv`].
pub open spec fn iv_regex() -> Seq<char> {
    "iv\\s*=\\s*IV\\.fromUtf8\\('([^']+)'"@
}

/// The IV text: after `static final iv = IV.fromUtf8('` or else after
/// `static const iv = IV.fromUtf8('`, up to the closing quote; else the
/// first capture of [`iv_regex`].
pub open spec fn spec_extract_iv(data: Seq<u8>) -> Result<Seq<u8>, V3Error> {
    let found = match iv_after(data, encode_utf8("static final iv = IV.fromUtf8('"@)) {
        Some(b) => Some(b),
        None => iv_after(data, encode_utf8("static const iv = IV.fromUtf8('"@)),
    };
    match found {
        Some(b) => if valid_utf8(b) {
            Ok(b)
        } else {
            Err(V3Error::Utf8)
        },
        None => match regex_capture1(iv_regex(), data) {
            Err(()) => Err(V3Error::RegexCompile),
            Ok(None) => Err(V3Error::IvNotFound),
            Ok(Some(c)) => if valid_utf8(c) {
                Ok(c)
            } else {
                Err(V3Error::Utf8)
            },
        },
    }
}

fn find_iv_after(data: &[u8], pat: &str) -> (r: Option<Vec<u8>>)
    requires
        pat@.len() > 0,
    ensures
        match iv_after(data@, encode_utf8(pat@)) {
            None => r is None,
            Some(b) => r matches Some(v) && v@ == b,
        },
{
    let pb = pat.as_bytes();
    proof {
        vstd::utf8::encode_utf8_decode_utf8(pat@);
        if pb@.len() == 0 {
            assert(vstd::utf8::decode_utf8(pb@) =~= Seq::<char>::empty());
        }
    }
    let idx = match find_bytes(data, pb) {
        Some(i) => i,
        None => return None,
    };
    assert(data@.len() == data.len());
    let start = idx + pb.len();
    let tail = slice_range(data, start, data.len());
    let quote: [u8; 1] = [0x27];
    assert(quote@ == seq![0x27u8]);
    let end = match find_bytes(tail, quote.as_slice()) {
        Some(e) => e,
        None => return None,
    };
    Some(copy_range(tail, 0, end))
}

/// Extract the IV from `kernel_blob.bin`: `static final iv =
/// IV.fromUtf8('...')` (or `static const`), or, failing both, a
/// regular-expression search.
pub fn extract_iv(kernel_data: &[u8]) -> (r: Result<String, V3Error>)
    ensures
        match spec_extract_iv(kernel_data@) {
            Ok(b) => r matches Ok(s) && encode_utf8(s@) == b && s@ == decode_utf8(b),
            Err(e) => r == Err::<String, V3Error>(e),
        },
{
    proof {
        reveal_strlit("static final iv = IV.fromUtf8('");
        reveal_strlit("static const iv = IV.fromUtf8('");
    }
    let found = match find_iv_after(kernel_data, "static final iv = IV.fromUtf8('") {
        Some(b) => Some(b),
        None => find_iv_after(kernel_data, "static const iv = IV.fromUtf8('"),
    };
    match found {
        Some(b) => match string_from_utf8(b) {
            Some(s) => return Ok(s),
            None => return Err(V3Error::Utf8),
        },
        None => {},
    }
    let caps = match regex_first_capture("iv\\s*=\\s*IV\\.fromUtf8\\('([^']+)'", kernel_data) {
        Ok(c) => c,
        Err(()) => return Err(V3Error::RegexCompile),
    };
    match caps {
        Some(m) => match string_from_utf8(m) {
            Some(s) => Ok(s),
            None => Err(V3Error::Utf8),
        },
        None => Err(V3Error::IvNotFound),
    }
}

/// The book key is 32 bytes long whenever the key and the key string
/// together have that many, starts with the key (as much of it as fits)
/// and goes on with the start of the key string.
pub proof fn law_create_key(key: Seq<u8>, keystr: Seq<u8>)
    ensures
        key.len() + keystr.len() >= 32 ==> spec_create_key(key, keystr).len() == 32,
        spec_create_key(key, keystr).len() <= 32,
        forall|i: int|
            0 <= i < spec_create_key(key, keystr).len() ==> #[trigger] spec_create_key(key, keystr)[i] == if i
                < key.len() {
                key[i]
            } else {
                keystr[i - key.len()]
            },
{
}

/// A successful decryption of a non-empty ciphertext removes a PKCS#7 pad
/// of 1 to 16 bytes: the plain text is shorter than the ciphertext by at
/// most one block.
pub proof fn law_decrypt_bytes_length(data: Seq<u8>, key: Seq<u8>, iv: Seq<u8>)
    ensures
        data.len() > 0 ==> (spec_aes_cbc_decrypt(data, key, iv) matches Ok(r) ==> data.len() - 16 <= r.len()
            < data.len()),
{
}

} // verus!
