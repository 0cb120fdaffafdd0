//! Decisions of the conversion pipeline: which payload is which, how a
//! `KryCode` is resolved from the configuration files, how a legacy
//! payload is decrypted, and how v3 page images are sorted out.
use vstd::prelude::*;
use vstd::utf8::encode_utf8;
use crate::bytes::{str_chars, string_from_utf8_lossy, string_push, utf8_lossy};
use crate::kry::{
    default_kry_code, digits_value, kry_code_fits, parse_kry_code, parse_kry_code_checked, spec_kry_decrypt, spec_parse_kry_code,
    trim, trim_chars, KryCode, KryParse, KrySWFCrypto,
};
use crate::kk::{spec_fd1, DEFAULT_PUBLISHER_KEY, KK};
use crate::swf::{fws_ok, spec_to_fws, to_fws};
use crate::bytes::copy_range;
use crate::assets::{spec_config_code, opt_view, PublisherConfig};
use crate::enigma::ExtractedFile;
use crate::scanner::{lowercase, str_to_lowercase};
use crate::v3::{
    create_key, decrypt_bytes, decrypt_string, extract_iv, extract_keystr, keystr_chars, spec_aes_cbc_decrypt,
    spec_create_key, spec_decrypt_string, spec_envied_array, spec_extract_iv, EnviedArray, };
use crate::kk::string_from_utf8;
use vstd::utf8::{decode_utf8, valid_utf8};
use std::collections::HashMap;
use crate::pe::{pe_describes, pe_headers_readable, pe_signature_ok, PeInfo};

verus! {

// ---------------------------------------------------------------------------
// Text helpers
// ---------------------------------------------------------------------------

/// `n` stands in `h` at `i`.
pub open spec fn chars_at_spec(h: Seq<char>, n: Seq<char>, i: int) -> bool {
    0 <= i && i + n.len() <= h.len() && h.subrange(i, i + n.len()) == n
}

/// Position of the first occurrence of `n` in `h`.
#[verifier::opaque]
pub open spec fn find_chars_spec(h: Seq<char>, n: Seq<char>) -> Option<int> {
    if exists|i: int| chars_at_spec(h, n, i) {
        Some(choose|i: int| chars_at_spec(h, n, i) && forall|j: int| 0 <= j < i ==> !chars_at_spec(h, n, j))
    } else {
        None
    }
}

fn chars_match(h: &Vec<char>, n: &Vec<char>, at: usize) -> (r: bool)
    requires
        at + n@.len() <= h@.len(),
    ensures
        r == chars_at_spec(h@, n@, at as int),
{
    let mut j: usize = 0;
    while j < n.len()
        invariant
            j <= n@.len(),
            at + n@.len() <= h@.len(),
            h@.len() == h.len(),
            forall|k: int| 0 <= k < j ==> h@[at + k] == n@[k],
        decreases n.len() - j,
    {
        if h[at + j] != n[j] {
            assert(h@.subrange(at as int, at + n@.len())[j as int] != n@[j as int]);
            return false;
        }
        j = j + 1;
    }
    assert(h@.subrange(at as int, at + n@.len()) =~= n@);
    true
}

/// First occurrence of `n` in `h`.
pub fn find_chars(h: &Vec<char>, n: &Vec<char>) -> (r: Option<usize>)
    ensures
        match find_chars_spec(h@, n@) {
            None => r is None,
            Some(i) => r == Some(i as usize),
        },
        r matches Some(i) ==> chars_at_spec(h@, n@, i as int) && find_chars_spec(h@, n@) == Some(i as int),
{
    reveal(find_chars_spec);
    if n.len() > h.len() {
        assert(forall|i: int| !chars_at_spec(h@, n@, i));
        return None;
    }
    let mut i: usize = 0;
    while i <= h.len() - n.len()
        invariant
            n@.len() <= h@.len(),
            h@.len() == h.len(),
            i <= h@.len() - n@.len() + 1,
            forall|j: int| 0 <= j < i ==> !chars_at_spec(h@, n@, j),
        decreases h.len() - n.len() + 1 - i,
    {
        reveal(find_chars_spec);
        if chars_match(h, n, i) {
            assert(chars_at_spec(h@, n@, i as int) && forall|j: int| 0 <= j < i ==> !chars_at_spec(h@, n@, j));
            let ghost c = choose|k: int| chars_at_spec(h@, n@, k) && forall|j: int| 0 <= j < k ==> !chars_at_spec(h@, n@, j);
            assert(chars_at_spec(h@, n@, c));
            assert(c == i) by {
                if c < i {
                } else if c > i {
                }
            }
            return Some(i);
        }
        if i == h.len() - n.len() {
            assert forall|k: int| !chars_at_spec(h@, n@, k) by {
                if k > i {
                }
            }
            return None;
        }
        i = i + 1;
    }
    None
}

/// Copy of the characters from `i` up to `j`.
fn chars_range(v: &Vec<char>, i: usize, j: usize) -> (r: Vec<char>)
    requires
        i <= j <= v@.len(),
    ensures
        r@ == v@.subrange(i as int, j as int),
{
    let mut out: Vec<char> = Vec::new();
    let mut k = i;
    while k < j
        invariant
            i <= k <= j <= v@.len(),
            out@ == v@.subrange(i as int, k as int),
        decreases j - k,
    {
        out.push(v[k]);
        k = k + 1;
    }
    out
}

/// A string of the given characters.
pub fn string_of_chars(v: &Vec<char>) -> (s: String)
    ensures
        s@ == v@,
{
    let mut s = String::new();
    let mut k: usize = 0;
    while k < v.len()
        invariant
            k <= v@.len(),
            s@ == v@.subrange(0, k as int),
        decreases v.len() - k,
    {
        string_push(&mut s, v[k]);
        assert(v@.subrange(0, k + 1) =~= v@.subrange(0, k as int).push(v@[k as int]));
        k = k + 1;
    }
    assert(v@.subrange(0, v@.len() as int) =~= v@);
    s
}

// ---------------------------------------------------------------------------
// XML configuration
// ---------------------------------------------------------------------------

/// The text between the first `<tag>` and the first `</tag>` after it.
pub open spec fn spec_xml_tag(xml: Seq<char>, tag: Seq<char>) -> Option<Seq<char>> {
    let open = seq!['<'] + tag + seq!['>'];
    let close = seq!['<', '/'] + tag + seq!['>'];
    match find_chars_spec(xml, open) {
        None => None,
        Some(i) => {
            let start = i + open.len();
            match find_chars_spec(xml.subrange(start, xml.len() as int), close) {
                None => None,
                Some(e) => Some(xml.subrange(start, start + e)),
            }
        },
    }
}

/// `<tag>`, or `</tag>` when `closing`.
fn bracket_tag(t: &Vec<char>, closing: bool) -> (r: Vec<char>)
    ensures
        !closing ==> r@ == seq!['<'] + t@ + seq!['>'],
        closing ==> r@ == seq!['<', '/'] + t@ + seq!['>'],
{
    let mut out: Vec<char> = Vec::new();
    out.push('<');
    if closing {
        out.push('/');
    }
    let ghost head = out@;
    let mut k: usize = 0;
    while k < t.len()
        invariant
            k <= t@.len(),
            out@ == head + t@.subrange(0, k as int),
        decreases t.len() - k,
    {
        out.push(t[k]);
        assert(head + t@.subrange(0, k + 1) =~= (head + t@.subrange(0, k as int)).push(t@[k as int]));
        k = k + 1;
    }
    out.push('>');
    assert(t@.subrange(0, t@.len() as int) =~= t@);
    assert(closing ==> head =~= seq!['<', '/']);
    assert(!closing ==> head =~= seq!['<']);
    assert(out@ =~= head + t@ + seq!['>']);
    out
}

/// The content of the first `<tag>…</tag>` element of an XML text.
pub fn xml_tag(xml: &str, tag: &str) -> (r: Option<String>)
    ensures
        match spec_xml_tag(xml@, tag@) {
            None => r is None,
            Some(t) => r matches Some(s) && s@ == t,
        },
{
    let x = str_chars(xml);
    let t = str_chars(tag);
    let open = bracket_tag(&t, false);
    let close = bracket_tag(&t, true);
    let ghost open_s = seq!['<'] + tag@ + seq!['>'];
    let ghost close_s = seq!['<', '/'] + tag@ + seq!['>'];
    assert(x@ == xml@);
    assert(open@ == open_s);
    assert(close@ == close_s);
    let i = find_chars(&x, &open)?;
    assert(find_chars_spec(xml@, open_s) == Some(i as int));
    assert(x@.len() == x.len());
    let start = i + open.len();
    assert(start == i + open_s.len());
    let rest = chars_range(&x, start, x.len());
    let e = match find_chars(&rest, &close) {
        Some(e) => e,
        None => {
            assert(rest@ == xml@.subrange(start as int, xml@.len() as int));
            assert(find_chars_spec(rest@, close_s) is None);
            assert(spec_xml_tag(xml@, tag@) is None);
            return None;
        },
    };
    assert(rest@ == xml@.subrange(start as int, xml@.len() as int));
    assert(find_chars_spec(rest@, close_s) == Some(e as int));
    let inner = chars_range(&x, start, start + e);
    assert(spec_xml_tag(xml@, tag@) == Some(inner@));
    Some(string_of_chars(&inner))
}

// ---------------------------------------------------------------------------
// Page file names
// ---------------------------------------------------------------------------

/// `s` with every trailing `.webp` removed.
pub open spec fn strip_webp(s: Seq<char>) -> Seq<char>
    decreases s.len(),
{
    if s.len() >= 5 && s.subrange(s.len() - 5, s.len() as int) == seq!['.', 'w', 'e', 'b', 'p'] {
        strip_webp(s.subrange(0, s.len() - 5))
    } else {
        s
    }
}

pub open spec fn is_ascii_digit(c: char) -> bool {
    '0' <= c <= '9'
}

/// The longest run of ASCII digits at the end of `s`.
pub open spec fn trailing_digits(s: Seq<char>) -> Seq<char>
    decreases s.len(),
{
    if s.len() > 0 && is_ascii_digit(s.last()) {
        trailing_digits(s.drop_last()).push(s.last())
    } else {
        Seq::empty()
    }
}

/// The page number at the end of a lower-case file stem (`.webp` suffixes
/// ignored): its trailing digits read in decimal, when there are any and
/// the value fits in a `usize`.
pub open spec fn spec_page_num_suffix(s: Seq<char>) -> Option<usize> {
    let d = trailing_digits(strip_webp(s));
    if d.len() == 0 || digits_value(d) > usize::MAX {
        None
    } else {
        Some(digits_value(d) as usize)
    }
}

fn ends_with_webp(cs: &Vec<char>, end: usize) -> (r: bool)
    requires
        end <= cs@.len(),
    ensures
        r == (end >= 5 && cs@.subrange(0, end as int).subrange(end - 5, end as int) == seq!['.', 'w', 'e', 'b', 'p']),
{
    if end < 5 {
        return false;
    }
    let r = cs[end - 5] == '.' && cs[end - 4] == 'w' && cs[end - 3] == 'e' && cs[end - 2] == 'b' && cs[end - 1] == 'p';
    let ghost t = cs@.subrange(0, end as int).subrange(end - 5, end as int);
    if r {
        assert(t =~= seq!['.', 'w', 'e', 'b', 'p']);
    } else {
        assert(t != seq!['.', 'w', 'e', 'b', 'p']) by {
            if t == seq!['.', 'w', 'e', 'b', 'p'] {
                assert(t[0] == cs@[end - 5]);
                assert(t[1] == cs@[end - 4]);
                assert(t[2] == cs@[end - 3]);
                assert(t[3] == cs@[end - 2]);
                assert(t[4] == cs@[end - 1]);
            }
        }
    }
    r
}

fn is_digit_char(c: char) -> (r: bool)
    ensures
        r == is_ascii_digit(c),
{
    '0' <= c && c <= '9'
}

/// The decimal value of the digits of `cs` from `start` up to `end`, when
/// it fits in a `usize`.
fn digits_to_usize(cs: &Vec<char>, start: usize, end: usize) -> (r: Option<usize>)
    requires
        start <= end <= cs@.len(),
        forall|k: int| start <= k < end ==> is_ascii_digit(cs@[k]),
    ensures
        digits_value(cs@.subrange(start as int, end as int)) <= usize::MAX ==> r == Some(
            digits_value(cs@.subrange(start as int, end as int)) as usize,
        ),
        digits_value(cs@.subrange(start as int, end as int)) > usize::MAX ==> r is None,
{
    let ghost d = cs@.subrange(start as int, end as int);
    assert(crate::kry::all_digits(d)) by {
        assert forall|i: int| 0 <= i < d.len() implies '0' <= #[trigger] d[i] <= '9' by {
            assert(d[i] == cs@[start + i]);
        }
    }
    let mut val: usize = 0;
    let mut k: usize = start;
    assert(d.subrange(0, 0) =~= Seq::<char>::empty());
    while k < end
        invariant
            start <= k <= end <= cs@.len(),
            d == cs@.subrange(start as int, end as int),
            crate::kry::all_digits(d),
            forall|j: int| start <= j < end ==> is_ascii_digit(cs@[j]),
            val == digits_value(d.subrange(0, k - start)),
        decreases end - k,
    {
        assert(d[k - start] == cs@[k as int]);
        let digit = (cs[k] as u32 - '0' as u32) as usize;
        assert(d.subrange(0, k + 1 - start).drop_last() =~= d.subrange(0, k - start));
        assert(d.subrange(0, k + 1 - start).last() == cs@[k as int]);
        assert(digits_value(d.subrange(0, k + 1 - start)) == 10 * val + digit);
        let m = match val.checked_mul(10) {
            Some(m) => m,
            None => {
                proof {
                    crate::kry::lemma_digits_value_mono(d, k + 1 - start);
                    assert(d.subrange(0, (end - start) as int) =~= d);
                }
                return None;
            },
        };
        let nv = match m.checked_add(digit) {
            Some(v) => v,
            None => {
                proof {
                    crate::kry::lemma_digits_value_mono(d, k + 1 - start);
                    assert(d.subrange(0, (end - start) as int) =~= d);
                }
                return None;
            },
        };
        val = nv;
        k = k + 1;
    }
    assert(d.subrange(0, (end - start) as int) =~= d);
    Some(val)
}

fn webp_stripped_len(cs: &Vec<char>) -> (end: usize)
    ensures
        end <= cs@.len(),
        strip_webp(cs@) == cs@.subrange(0, end as int),
{
    let mut end: usize = cs.len();
    assert(cs@.subrange(0, end as int) =~= cs@);
    while ends_with_webp(cs, end)
        invariant
            end <= cs@.len(),
            strip_webp(cs@) == strip_webp(cs@.subrange(0, end as int)),
        decreases end,
    {
        assert(cs@.subrange(0, end as int).subrange(0, end - 5) =~= cs@.subrange(0, end - 5));
        end = end - 5;
    }
    end
}

fn trailing_digits_start(cs: &Vec<char>, end: usize) -> (start: usize)
    requires
        end <= cs@.len(),
    ensures
        start <= end,
        trailing_digits(cs@.subrange(0, end as int)) == cs@.subrange(start as int, end as int),
        forall|k: int| start <= k < end ==> is_ascii_digit(cs@[k]),
{
    let ghost s0 = cs@.subrange(0, end as int);
    let mut start: usize = end;
    assert(s0.subrange(start as int, end as int) =~= Seq::<char>::empty());
    assert(s0.subrange(0, start as int) =~= s0);
    while start > 0 && is_digit_char(cs[start - 1])
        invariant
            start <= end <= cs@.len(),
            s0 == cs@.subrange(0, end as int),
            trailing_digits(s0) == trailing_digits(s0.subrange(0, start as int)) + s0.subrange(start as int, end as int),
            forall|k: int| start <= k < end ==> is_ascii_digit(cs@[k]),
        decreases start,
    {
        let ghost p = s0.subrange(0, start as int);
        assert(p.drop_last() =~= s0.subrange(0, start - 1));
        assert(p.last() == cs@[start - 1]);
        assert(trailing_digits(s0.subrange(0, start - 1)) + s0.subrange(start - 1, end as int) =~= trailing_digits(
            s0.subrange(0, start - 1),
        ).push(p.last()) + s0.subrange(start as int, end as int));
        start = start - 1;
    }
    proof {
        let p = s0.subrange(0, start as int);
        assert(trailing_digits(p) =~= Seq::<char>::empty());
        assert(trailing_digits(s0) =~= s0.subrange(start as int, end as int));
        assert(s0.subrange(start as int, end as int) =~= cs@.subrange(start as int, end as int));
    }
    start
}

/// Parse the page number at the end of a lower-case file stem such as
/// `p-001` or `1.webp`.
pub fn parse_page_num_suffix(stem_lower: &str) -> (r: Option<usize>)
    ensures
        r == spec_page_num_suffix(stem_lower@),
{
    let cs = str_chars(stem_lower);
    let end = webp_stripped_len(&cs);
    let start = trailing_digits_start(&cs, end);
    if start == end {
        return None;
    }
    digits_to_usize(&cs, start, end)
}

// ---------------------------------------------------------------------------
// Legacy payload decryption
// ---------------------------------------------------------------------------

/// A payload decrypted with the SWF cipher and normalised to `FWS`.
pub open spec fn spec_try_decrypt_kry(data: Seq<u8>, c: KryCode) -> Option<Seq<u8>> {
    if data.len() == 0 {
        None
    } else {
        fws_ok(spec_to_fws(spec_kry_decrypt(data, c)))
    }
}

/// The text of a payload (lossy UTF-8), trimmed.
pub open spec fn payload_text(data: Seq<u8>) -> Seq<char> {
    trim(utf8_lossy(data))
}

/// A payload decrypted with `fd1` and normalised to `FWS`.
pub open spec fn spec_try_decrypt_fd1(data: Seq<u8>, key: Seq<char>) -> Option<Seq<u8>> {
    if data.len() == 0 {
        None
    } else {
        match spec_fd1(encode_utf8(payload_text(data)), encode_utf8(key), true) {
            Err(_) => None,
            Ok(b) => fws_ok(spec_to_fws(b)),
        }
    }
}

/// Decrypt a legacy payload with the SWF cipher and normalise it to `FWS`.
pub fn try_decrypt_kry(data: &[u8], code: &KryCode) -> (r: Option<Vec<u8>>)
    requires
        kry_code_fits(*code),
    ensures
        match spec_try_decrypt_kry(data@, *code) {
            None => r is None,
            Some(v) => r matches Some(w) && w@ == v,
        },
{
    if data.len() == 0 {
        return None;
    }
    let mut bytes = copy_range(data, 0, data.len());
    assert(bytes@ =~= data@);
    let _ = KrySWFCrypto::decrypt(&mut bytes, code);
    match to_fws(bytes.as_slice()) {
        Ok(v) => Some(v),
        Err(_) => None,
    }
}

/// The trimmed text of a payload.
fn trimmed_text(data: &[u8]) -> (s: String)
    ensures
        s@ == payload_text(data@),
{
    let text = string_from_utf8_lossy(data);
    let cs = str_chars(text.as_str());
    let t = trim_chars(&cs);
    string_of_chars(&t)
}

/// Decrypt a legacy payload with `fd1` and normalise it to `FWS`.
pub fn try_decrypt_fd1(data: &[u8], key: &str) -> (r: Option<Vec<u8>>)
    ensures
        match spec_try_decrypt_fd1(data@, key@) {
            None => r is None,
            Some(v) => r matches Some(w) && w@ == v,
        },
{
    if data.len() == 0 {
        return None;
    }
    let text = trimmed_text(data);
    let decrypted = match KK::fd1(text.as_str(), key, true) {
        Ok(d) => d,
        Err(_) => return None,
    };
    match to_fws(decrypted.as_str().as_bytes()) {
        Ok(v) => Some(v),
        Err(_) => None,
    }
}

/// How a collected payload is handled.
#[derive(Debug, Clone, Copy, PartialEq, Eq, Structural)]
pub enum PayloadKind {
    /// A configuration file (`p.dll`, `sysd*`, `sysm*`, `publisher.kxk`),
    /// only read for the `KryCode`.
    Config,
    /// A `.frns` book of frames.
    Frns,
    /// A legacy DLL holding one multi-frame SWF.
    Dll,
}

pub open spec fn starts_with_chars(s: Seq<char>, p: Seq<char>) -> bool {
    p.len() <= s.len() && s.subrange(0, p.len() as int) == p
}

pub open spec fn ends_with_chars(s: Seq<char>, p: Seq<char>) -> bool {
    p.len() <= s.len() && s.subrange(s.len() - p.len(), s.len() as int) == p
}

/// Kind of a payload, by its file name.
pub open spec fn spec_payload_kind(name: Seq<char>) -> PayloadKind {
    if name == "p.dll"@ || starts_with_chars(name, "sysd"@) || starts_with_chars(name, "sysm"@)
        || name == "publisher.kxk"@ {
        PayloadKind::Config
    } else if ends_with_chars(name, ".frns"@) {
        PayloadKind::Frns
    } else {
        PayloadKind::Dll
    }
}

fn prefix_is(s: &Vec<char>, p: &Vec<char>) -> (r: bool)
    ensures
        r == starts_with_chars(s@, p@),
{
    if p.len() > s.len() {
        return false;
    }
    chars_match(s, p, 0)
}

fn suffix_is(s: &Vec<char>, p: &Vec<char>) -> (r: bool)
    ensures
        r == ends_with_chars(s@, p@),
{
    if p.len() > s.len() {
        return false;
    }
    chars_match(s, p, s.len() - p.len())
}

fn chars_eq(a: &Vec<char>, b: &Vec<char>) -> (r: bool)
    ensures
        r == (a@ == b@),
{
    if a.len() != b.len() {
        return false;
    }
    let r = chars_match(a, b, 0);
    assert(a@.subrange(0, b@.len() as int) =~= a@);
    r
}

/// Classify a collected payload by its file name.
pub fn payload_kind(name: &str) -> (k: PayloadKind)
    ensures
        k == spec_payload_kind(name@),
{
    let n = str_chars(name);
    if chars_eq(&n, &str_chars("p.dll")) || prefix_is(&n, &str_chars("sysd")) || prefix_is(&n, &str_chars("sysm"))
        || chars_eq(&n, &str_chars("publisher.kxk")) {
        PayloadKind::Config
    } else if suffix_is(&n, &str_chars(".frns")) {
        PayloadKind::Frns
    } else {
        PayloadKind::Dll
    }
}

/// A legacy DLL payload: the SWF cipher with `code` first, `fd1` with the
/// default publisher key when that fails.
pub open spec fn spec_decrypt_dll(data: Seq<u8>, c: KryCode) -> Option<Seq<u8>> {
    match spec_try_decrypt_kry(data, c) {
        Some(v) => Some(v),
        None => spec_try_decrypt_fd1(data, DEFAULT_PUBLISHER_KEY@),
    }
}

/// Decrypt a legacy DLL payload into an uncompressed SWF.
pub fn decrypt_dll_payload(data: &[u8], code: &KryCode) -> (r: Option<Vec<u8>>)
    requires
        kry_code_fits(*code),
    ensures
        match spec_decrypt_dll(data@, *code) {
            None => r is None,
            Some(v) => r matches Some(w) && w@ == v,
        },
{
    match try_decrypt_kry(data, code) {
        Some(v) => Some(v),
        None => try_decrypt_fd1(data, DEFAULT_PUBLISHER_KEY),
    }
}

// ---------------------------------------------------------------------------
// KryCode resolution
// ---------------------------------------------------------------------------

/// The `KryCode` of an XML configuration: its `fernusCode` element read
/// with the length in bytes of its `pkxkname` element (`fernus` when
/// absent); `None` when there is no code or it is malformed.
pub open spec fn spec_xml_kry_code(xml: Seq<char>) -> KryParse {
    match spec_xml_tag(xml, "fernusCode"@) {
        None => KryParse::Invalid,
        Some(fc) => {
            let pk = match spec_xml_tag(xml, "pkxkname"@) {
                Some(p) => p,
                None => "fernus"@,
            };
            spec_parse_kry_code(fc, encode_utf8(pk).len() as usize)
        },
    }
}

/// Read the `KryCode` of an XML configuration.
pub fn extract_kry_code_from_xml(xml: &str) -> (r: Option<KryCode>)
    requires
        !(spec_xml_kry_code(xml@) is Overflow),
    ensures
        match spec_xml_kry_code(xml@) {
            KryParse::Code(c) => r == Some(c),
            _ => r is None,
        },
{
    let fernus_code = xml_tag(xml, "fernusCode")?;
    let pk_len: usize = match xml_tag(xml, "pkxkname") {
        Some(p) => p.as_str().as_bytes().len(),
        None => {
            let f = "fernus";
            f.as_bytes().len()
        },
    };
    match parse_kry_code(fernus_code.as_str(), pk_len) {
        Ok(c) => Some(c),
        Err(_) => None,
    }
}

/// [`extract_kry_code_from_xml`] on any text: `None` where a number of the
/// code plus the `pkxkname` length leaves the `i32` range.
pub fn extract_kry_code_from_xml_checked(xml: &str) -> (r: Option<Option<KryCode>>)
    ensures
        match spec_xml_kry_code(xml@) {
            KryParse::Code(c) => r == Some(Some(c)),
            KryParse::Invalid => r == Some(None::<KryCode>),
            KryParse::Overflow => r is None,
        },
{
    let fernus_code = match xml_tag(xml, "fernusCode") {
        Some(c) => c,
        None => return Some(None),
    };
    let pk_len: usize = match xml_tag(xml, "pkxkname") {
        Some(p) => p.as_str().as_bytes().len(),
        None => {
            let f = "fernus";
            f.as_bytes().len()
        },
    };
    match parse_kry_code_checked(fernus_code.as_str(), pk_len) {
        Some(Ok(c)) => Some(Some(c)),
        Some(Err(_)) => Some(None),
        None => None,
    }
}

/// What was read from one configuration file: its `fd1`-decrypted text
/// (when decryption succeeded) and, when that text is a publisher JSON
/// document, the configuration it holds.
#[derive(Debug, Clone)]
pub struct ConfigProbe {
    pub decrypted: Option<String>,
    pub config: Option<PublisherConfig>,
}

/// The `KryCode` found by probing the configuration files in order: the
/// first decrypted one that is a JSON configuration gives its code, or else
/// the first that is XML with a valid code; the default code when none
/// does.
pub open spec fn spec_resolve(probes: Seq<ConfigProbe>) -> KryParse
    decreases probes.len(),
{
    if probes.len() == 0 {
        KryParse::Code(KryCode { f1: 33, f2: 20, f3: 10 })
    } else {
        let p = probes[0];
        match p.decrypted {
            None => spec_resolve(probes.drop_first()),
            Some(text) => match p.config {
                Some(cfg) => spec_config_code(opt_view(cfg.pkxkname), opt_view(cfg.fernus_code)),
                None => match spec_xml_kry_code(text@) {
                    KryParse::Code(c) => KryParse::Code(c),
                    KryParse::Overflow => KryParse::Overflow,
                    KryParse::Invalid => spec_resolve(probes.drop_first()),
                },
            },
        }
    }
}

/// Resolve the `KryCode` from the probed configuration files.
pub fn resolve_kry_code(probes: &Vec<ConfigProbe>) -> (c: KryCode)
    requires
        !(spec_resolve(probes@) is Overflow),
    ensures
        spec_resolve(probes@) == KryParse::Code(c),
{
    let mut k: usize = 0;
    assert(probes@.subrange(0, probes@.len() as int) =~= probes@);
    while k < probes.len()
        invariant
            k <= probes@.len(),
            spec_resolve(probes@) == spec_resolve(probes@.subrange(k as int, probes@.len() as int)),
            !(spec_resolve(probes@) is Overflow),
        decreases probes.len() - k,
    {
        let ghost rest = probes@.subrange(k as int, probes@.len() as int);
        assert(rest[0] == probes@[k as int]);
        assert(rest.drop_first() =~= probes@.subrange(k + 1, probes@.len() as int));
        let p = &probes[k];
        if let Some(text) = &p.decrypted {
            if let Some(cfg) = &p.config {
                return cfg.kry_code();
            }
            if let Some(c) = extract_kry_code_from_xml(text.as_str()) {
                return c;
            }
        }
        k = k + 1;
    }
    default_kry_code()
}

/// [`resolve_kry_code`] on any probes: `None` where the code that would be
/// used has a number that, plus the `pkxkname` length, leaves the `i32`
/// range.
pub fn resolve_kry_code_checked(probes: &Vec<ConfigProbe>) -> (c: Option<KryCode>)
    ensures
        match spec_resolve(probes@) {
            KryParse::Code(k) => c == Some(k),
            _ => c is None,
        },
{
    let mut k: usize = 0;
    assert(probes@.subrange(0, probes@.len() as int) =~= probes@);
    while k < probes.len()
        invariant
            k <= probes@.len(),
            spec_resolve(probes@) == spec_resolve(probes@.subrange(k as int, probes@.len() as int)),
        decreases probes.len() - k,
    {
        let ghost rest = probes@.subrange(k as int, probes@.len() as int);
        assert(rest[0] == probes@[k as int]);
        assert(rest.drop_first() =~= probes@.subrange(k + 1, probes@.len() as int));
        let p = &probes[k];
        if let Some(text) = &p.decrypted {
            if let Some(cfg) = &p.config {
                return cfg.kry_code_checked();
            }
            match extract_kry_code_from_xml_checked(text.as_str()) {
                None => return None,
                Some(Some(c)) => return Some(c),
                Some(None) => {},
            }
        }
        k = k + 1;
    }
    Some(default_kry_code())
}

/// The text of an encrypted configuration payload: `fd1` of its trimmed
/// (lossy UTF-8) text with the default publisher key.
pub fn decrypt_config(data: &[u8]) -> (r: Option<String>)
    ensures
        match spec_fd1(encode_utf8(payload_text(data@)), encode_utf8(DEFAULT_PUBLISHER_KEY@), true) {
            Ok(b) => r matches Some(s) && encode_utf8(s@) == b,
            Err(_) => r is None,
        },
{
    let text = trimmed_text(data);
    match KK::fd1(text.as_str(), DEFAULT_PUBLISHER_KEY, true) {
        Ok(s) => Some(s),
        Err(_) => None,
    }
}

// ---------------------------------------------------------------------------
// v3 page images
// ---------------------------------------------------------------------------

/// What a file of a v3 book is for.
pub enum V3Item {
    Skip,
    Page(usize, Seq<u8>),
    Layer(usize, Seq<u8>),
}

/// `RIFF` at the start of `d`.
pub open spec fn riff_at_start(d: Seq<u8>) -> bool {
    d.len() >= 4 && d[0] == 0x52 && d[1] == 0x49 && d[2] == 0x46 && d[3] == 0x46
}

/// A WebP file header: `RIFF`, a size, `WEBP`.
pub open spec fn webp_header(d: Seq<u8>) -> bool {
    d.len() >= 12 && riff_at_start(d) && d[8] == 0x57 && d[9] == 0x45 && d[10] == 0x42 && d[11] == 0x50
}

/// The decrypted content of a v3 image: AES-CBC decryption, or the data as
/// it is when it fails and the data already starts with `RIFF`.
pub open spec fn v3_content(data: Seq<u8>, key: Seq<u8>, iv: Seq<u8>) -> Option<Seq<u8>> {
    match spec_aes_cbc_decrypt(data, key, iv) {
        Ok(d) => Some(d),
        Err(_) => if riff_at_start(data) {
            Some(data)
        } else {
            None
        },
    }
}

/// Role of a v3 file, from its lower-case path and file name: `.webp`
/// files other than thumbnails (`t-*`) whose content is WebP; `p-l-N` is
/// the overlay layer of page `N`, `p-N` page `N`.
pub open spec fn spec_v3_item(path_lower: Seq<char>, name_lower: Seq<char>, data: Seq<u8>, key: Seq<u8>, iv: Seq<u8>) -> V3Item {
    if !ends_with_chars(path_lower, ".webp"@) || starts_with_chars(name_lower, "t-"@) {
        V3Item::Skip
    } else {
        match v3_content(data, key, iv) {
            None => V3Item::Skip,
            Some(d) => if !webp_header(d) {
                V3Item::Skip
            } else if starts_with_chars(name_lower, "p-l-"@) {
                match spec_page_num_suffix(name_lower.subrange(4, name_lower.len() as int)) {
                    Some(n) => V3Item::Layer(n, d),
                    None => V3Item::Skip,
                }
            } else if starts_with_chars(name_lower, "p-"@) {
                match spec_page_num_suffix(name_lower.subrange(2, name_lower.len() as int)) {
                    Some(n) => V3Item::Page(n, d),
                    None => V3Item::Skip,
                }
            } else {
                V3Item::Skip
            },
        }
    }
}

/// `x` inserted after every item of `s` whose number is at most its own.
pub open spec fn insert_sorted(s: Seq<(usize, Seq<u8>)>, x: (usize, Seq<u8>)) -> Seq<(usize, Seq<u8>)>
    decreases s.len(),
{
    if s.len() == 0 || s.last().0 <= x.0 {
        s.push(x)
    } else {
        insert_sorted(s.drop_last(), x).push(s.last())
    }
}

/// Stable sort by page number.
pub open spec fn sort_by_number(s: Seq<(usize, Seq<u8>)>) -> Seq<(usize, Seq<u8>)>
    decreases s.len(),
{
    if s.len() == 0 {
        s
    } else {
        insert_sorted(sort_by_number(s.drop_last()), s.last())
    }
}

/// The pages among `items`, in order.
pub open spec fn v3_pages(items: Seq<V3Item>) -> Seq<(usize, Seq<u8>)>
    decreases items.len(),
{
    if items.len() == 0 {
        Seq::empty()
    } else {
        match items.last() {
            V3Item::Page(n, d) => v3_pages(items.drop_last()).push((n, d)),
            _ => v3_pages(items.drop_last()),
        }
    }
}

/// The layers among `items` by page number; a later layer of the same
/// page replaces an earlier one.
pub open spec fn v3_layers(items: Seq<V3Item>) -> Map<usize, Seq<u8>>
    decreases items.len(),
{
    if items.len() == 0 {
        Map::empty()
    } else {
        match items.last() {
            V3Item::Layer(n, d) => v3_layers(items.drop_last()).insert(n, d),
            _ => v3_layers(items.drop_last()),
        }
    }
}

/// Decrypted v3 images: pages sorted by their page number, overlay layers
/// keyed by page number.
pub struct V3Assets {
    pub pages: Vec<(usize, Vec<u8>)>,
    pub layers: HashMap<usize, Vec<u8>>,
}

pub open spec fn pages_are(v: Seq<(usize, Vec<u8>)>, m: Seq<(usize, Seq<u8>)>) -> bool {
    v.len() == m.len() && forall|k: int| 0 <= k < v.len() ==> (#[trigger] v[k]).0 == m[k].0 && v[k].1@ == m[k].1
}

pub open spec fn layers_are(h: Map<usize, Vec<u8>>, m: Map<usize, Seq<u8>>) -> bool {
    h.dom() == m.dom() && forall|k: usize| #[trigger] h.contains_key(k) ==> h[k]@ == m[k]
}

/// The assets that a sequence of classified files gives.
pub open spec fn assets_are(a: V3Assets, items: Seq<V3Item>) -> bool {
    pages_are(a.pages@, sort_by_number(v3_pages(items))) && layers_are(a.layers@, v3_layers(items))
}

/// `names` are the file names of `files`: one per file, and for every file
/// with a [`plain_path`] the last component of its path.
pub open spec fn names_of(names: Seq<Seq<char>>, files: Seq<ExtractedFile>) -> bool {
    &&& names.len() == files.len()
    &&& forall|i: int| 0 <= i < files.len() && plain_path(#[trigger] files[i].path@) ==> names[i] == last_component(files[i].path@)
}

/// The classification of each file, given the file names.
pub open spec fn v3_items(files: Seq<ExtractedFile>, names: Seq<Seq<char>>, key: Seq<u8>, iv: Seq<u8>) -> Seq<V3Item> {
    Seq::new(
        files.len(),
        |i: int| spec_v3_item(lowercase(files[i].path@), lowercase(names[i]), files[i].data@, key, iv),
    )
}

/// The text after the last `/` of a path (all of it when it has none).
pub open spec fn last_component(p: Seq<char>) -> Seq<char>
    decreases p.len(),
{
    if p.len() == 0 {
        p
    } else if p.last() == '/' {
        Seq::empty()
    } else {
        last_component(p.drop_last()).push(p.last())
    }
}

/// A path whose file name is the same on every platform: no `\\` and no
/// `:` (no Windows separator or prefix), not starting with `//`, and a last
/// `/`-separated component that is neither empty nor `.` nor `..`.
pub open spec fn plain_path(p: Seq<char>) -> bool {
    &&& !p.contains('\\')
    &&& !p.contains(':')
    &&& !(p.len() >= 2 && p[0] == '/' && p[1] == '/')
    &&& last_component(p).len() > 0
    &&& last_component(p) != seq!['.']
    &&& last_component(p) != seq!['.', '.']
}

/// `std::path::Path::file_name` of a path, as text (empty when there is
/// none).  Stated: for a [`plain_path`] the result is its last component
/// (`file_name` gives the final component, and on every platform `/`
/// separates components).  Nothing is stated of other paths, whose
/// reading depends on the platform's separators and prefixes.
#[verifier::external_body]
fn path_file_name(path: &str) -> (r: String)
    ensures
        plain_path(path@) ==> r@ == last_component(path@),
{
    std::path::Path::new(path).file_name().and_then(|n| n.to_str()).unwrap_or("").to_string()
}

/// Insert a page after every page whose number is at most its own.
fn insert_page(pages: &mut Vec<(usize, Vec<u8>)>, num: usize, data: Vec<u8>, Ghost(m): Ghost<Seq<(usize, Seq<u8>)>>)
    requires
        pages_are(old(pages)@, m),
    ensures
        pages_are(final(pages)@, insert_sorted(m, (num, data@))),
{
    let mut j: usize = pages.len();
    assert(m.subrange(0, j as int) =~= m);
    assert(insert_sorted(m, (num, data@)) + m.subrange(j as int, m.len() as int) =~= insert_sorted(m, (num, data@)));
    while j > 0 && pages[j - 1].0 > num
        invariant
            j <= pages@.len(),
            pages_are(pages@, m),
            insert_sorted(m, (num, data@)) == insert_sorted(m.subrange(0, j as int), (num, data@)) + m.subrange(j as int, m.len() as int),
        decreases j,
    {
        let ghost p = m.subrange(0, j as int);
        assert(p.drop_last() =~= m.subrange(0, j - 1));
        assert(p.last() == m[j - 1]);
        assert(insert_sorted(p, (num, data@)) == insert_sorted(m.subrange(0, j - 1), (num, data@)).push(m[j - 1]));
        assert(insert_sorted(m.subrange(0, j - 1), (num, data@)).push(m[j - 1]) + m.subrange(j as int, m.len() as int)
            =~= insert_sorted(m.subrange(0, j - 1), (num, data@)) + m.subrange(j - 1, m.len() as int));
        j = j - 1;
    }
    proof {
        let p = m.subrange(0, j as int);
        assert(insert_sorted(p, (num, data@)) == p.push((num, data@)));
        assert(p.push((num, data@)) + m.subrange(j as int, m.len() as int) =~= m.insert(j as int, (num, data@)));
    }
    let ghost old_pages = pages@;
    pages.insert(j, (num, data));
    assert forall|k: int| 0 <= k < pages@.len() implies (#[trigger] pages@[k]).0 == m.insert(j as int, (num, data@))[k].0
        && pages@[k].1@ == m.insert(j as int, (num, data@))[k].1 by {
        if k < j {
            assert(pages@[k] == old_pages[k]);
        } else if k > j {
            assert(pages@[k] == old_pages[k - 1]);
        }
    }
}

fn str_starts_with(s: &Vec<char>, p: &str) -> (r: bool)
    ensures
        r == starts_with_chars(s@, p@),
{
    prefix_is(s, &str_chars(p))
}

/// The role of one file given its lower-case path and file name.
pub fn classify_v3_file(path_lower: &str, name_lower: &str, data: &[u8], book_key: &[u8], iv: &[u8]) -> (r: (u8, usize, Vec<u8>))
    ensures
        match spec_v3_item(path_lower@, name_lower@, data@, book_key@, iv@) {
            V3Item::Skip => r.0 == 0,
            V3Item::Page(n, d) => r.0 == 1 && r.1 == n && r.2@ == d,
            V3Item::Layer(n, d) => r.0 == 2 && r.1 == n && r.2@ == d,
        },
{
    let path = str_chars(path_lower);
    let name = str_chars(name_lower);
    if !suffix_is(&path, &str_chars(".webp")) || str_starts_with(&name, "t-") {
        return (0, 0, Vec::new());
    }
    let dec = match decrypt_bytes(data, book_key, iv) {
        Ok(d) => d,
        Err(_) => {
            if data.len() >= 4 && data[0] == 0x52 && data[1] == 0x49 && data[2] == 0x46 && data[3] == 0x46 {
                let d = copy_range(data, 0, data.len());
                assert(d@ =~= data@);
                d
            } else {
                return (0, 0, Vec::new());
            }
        },
    };
    if !(dec.len() >= 12 && dec[0] == 0x52 && dec[1] == 0x49 && dec[2] == 0x46 && dec[3] == 0x46
        && dec[8] == 0x57 && dec[9] == 0x45 && dec[10] == 0x42 && dec[11] == 0x50) {
        return (0, 0, Vec::new());
    }
    proof {
        reveal_strlit("p-l-");
        reveal_strlit("p-");
    }
    if str_starts_with(&name, "p-l-") {
        let rest = string_of_chars(&chars_range(&name, 4, name.len()));
        return match parse_page_num_suffix(rest.as_str()) {
            Some(n) => (2, n, dec),
            None => (0, 0, Vec::new()),
        };
    }
    if str_starts_with(&name, "p-") {
        let rest = string_of_chars(&chars_range(&name, 2, name.len()));
        return match parse_page_num_suffix(rest.as_str()) {
            Some(n) => (1, n, dec),
            None => (0, 0, Vec::new()),
        };
    }
    (0, 0, Vec::new())
}

/// Collect, decrypt and sort out the WebP images of a v3 book: pages in
/// page-number order (files of equal number in their order), overlay
/// layers by page number.
pub fn collect_v3_webp(extracted: &[ExtractedFile], book_key: &[u8], iv: &[u8]) -> (r: V3Assets)
    ensures
        exists|names: Seq<Seq<char>>|
            #[trigger] names_of(names, extracted@) && assets_are(r, v3_items(extracted@, names, book_key@, iv@)),
{
    broadcast use vstd::std_specs::hash::group_hash_axioms;
    let mut pages: Vec<(usize, Vec<u8>)> = Vec::new();
    let mut layers: HashMap<usize, Vec<u8>> = HashMap::new();
    let ghost mut names: Seq<Seq<char>> = Seq::empty();
    let ghost mut items: Seq<V3Item> = Seq::empty();
    let mut k: usize = 0;
    while k < extracted.len()
        invariant
            k <= extracted@.len(),
            names_of(names, extracted@.subrange(0, k as int)),
            items == v3_items(extracted@.subrange(0, k as int), names, book_key@, iv@),
            pages_are(pages@, sort_by_number(v3_pages(items))),
            layers_are(layers@, v3_layers(items)),
        decreases extracted.len() - k,
    {
        let f = &extracted[k];
        let path_lower = str_to_lowercase(f.path.as_str());
        let name = path_file_name(f.path.as_str());
        let name_lower = str_to_lowercase(name.as_str());
        let (kind, num, dec) = classify_v3_file(path_lower.as_str(), name_lower.as_str(), f.data.as_slice(), book_key, iv);
        let ghost item = spec_v3_item(lowercase(f.path@), lowercase(name@), f.data@, book_key@, iv@);
        proof {
            let nn = names.push(name@);
            let ii = items.push(item);
            assert(v3_items(extracted@.subrange(0, k + 1), nn, book_key@, iv@) =~= ii);
            assert(ii.drop_last() =~= items);
        }
        let ghost pm = sort_by_number(v3_pages(items));
        proof {
            let ii = items.push(item);
            assert(ii.drop_last() =~= items);
            assert(ii.last() == item);
            match item {
                V3Item::Page(n, d) => {
                    assert(v3_pages(ii) == v3_pages(items).push((n, d)));
                    assert(v3_pages(items).push((n, d)).drop_last() =~= v3_pages(items));
                    assert(sort_by_number(v3_pages(ii)) == insert_sorted(pm, (n, d)));
                    assert(v3_layers(ii) == v3_layers(items));
                },
                V3Item::Layer(n, d) => {
                    assert(v3_pages(ii) == v3_pages(items));
                    assert(v3_layers(ii) == v3_layers(items).insert(n, d));
                },
                V3Item::Skip => {
                    assert(v3_pages(ii) == v3_pages(items));
                    assert(v3_layers(ii) == v3_layers(items));
                },
            }
        }
        if kind == 1 {
            insert_page(&mut pages, num, dec, Ghost(pm));
        } else if kind == 2 {
            layers.insert(num, dec);
            proof {
                let lm = v3_layers(items.push(item));
                assert(layers@.dom() =~= lm.dom());
            }
        }
        proof {
            let nn = names.push(name@);
            let ee = extracted@.subrange(0, k + 1);
            assert forall|i: int| 0 <= i < ee.len() && plain_path(#[trigger] ee[i].path@) implies nn[i] == last_component(ee[i].path@) by {
                if i < k {
                    assert(ee[i] == extracted@.subrange(0, k as int)[i]);
                }
            }
            names = nn;
            items = items.push(item);
        }
        k = k + 1;
    }
    assert(extracted@.subrange(0, k as int) =~= extracted@);
    let r = V3Assets { pages, layers };
    assert(assets_are(r, v3_items(extracted@, names, book_key@, iv@)));
    r
}

/// Page numbers never decrease along `s`.
pub open spec fn sorted_by_number(s: Seq<(usize, Seq<u8>)>) -> bool {
    forall|i: int, j: int| 0 <= i < j < s.len() ==> (#[trigger] s[i]).0 <= (#[trigger] s[j]).0
}

proof fn lemma_insert_sorted(s: Seq<(usize, Seq<u8>)>, x: (usize, Seq<u8>))
    requires
        sorted_by_number(s),
    ensures
        sorted_by_number(insert_sorted(s, x)),
        insert_sorted(s, x).to_multiset() == s.to_multiset().insert(x),
        forall|i: int| 0 <= i < insert_sorted(s, x).len() ==> #[trigger] insert_sorted(s, x)[i].0 <= x.0
            || insert_sorted(s, x)[i].0 <= s.last().0,
    decreases s.len(),
{
    broadcast use vstd::seq_lib::group_seq_properties;
    if s.len() == 0 || s.last().0 <= x.0 {
        s.to_multiset_ensures();
    } else {
        let t = s.drop_last();
        assert(sorted_by_number(t));
        lemma_insert_sorted(t, x);
        let u = insert_sorted(t, x);
        u.to_multiset_ensures();
        t.to_multiset_ensures();
        assert(s =~= t.push(s.last()));
        assert forall|i: int, j: int| 0 <= i < j < u.push(s.last()).len() implies (#[trigger] u.push(
            s.last(),
        )[i]).0 <= (#[trigger] u.push(s.last())[j]).0 by {
            if j == u.len() {
                if t.len() > 0 {
                    assert(t.last().0 <= s.last().0);
                }
            }
        }
    }
}

/// Sorting pages by number gives them in non-decreasing order of page
/// number, and keeps exactly the same pages (a permutation).
pub proof fn law_pages_sorted(s: Seq<(usize, Seq<u8>)>)
    ensures
        sorted_by_number(sort_by_number(s)),
        sort_by_number(s).to_multiset() == s.to_multiset(),
    decreases s.len(),
{
    broadcast use vstd::seq_lib::group_seq_properties;
    if s.len() > 0 {
        law_pages_sorted(s.drop_last());
        lemma_insert_sorted(sort_by_number(s.drop_last()), s.last());
        s.drop_last().to_multiset_ensures();
        assert(s =~= s.drop_last().push(s.last()));
    }
}

// ---------------------------------------------------------------------------
// v3 book keys
// ---------------------------------------------------------------------------

/// The value of the string member `field` of the JSON object `text`:
/// `Err` when `text` is not JSON, `Ok(None)` when it is not an object or
/// the member is absent or not a string.
pub uninterp spec fn json_string_field(text: Seq<char>, field: Seq<char>) -> Result<Option<Seq<char>>, ()>;

/// `serde_json::from_str::<serde_json::Value>` followed by indexing with
/// `field` and `as_str`.  Stated: the result is the named member of the
/// parsed text (`Err` for a parse error).
#[verifier::external_body]
fn json_str_field(text: &str, field: &str) -> (r: Result<Option<String>, ()>)
    ensures
        match json_string_field(text@, field@) {
            Err(()) => r is Err,
            Ok(None) => r == Ok::<Option<String>, ()>(None),
            Ok(Some(v)) => r matches Ok(Some(t)) && t@ == v,
        },
{
    let value: serde_json::Value = serde_json::from_str(text).map_err(|_| ())?;
    Ok(value[field].as_str().map(|s| s.to_string()))
}

/// Errors met while deriving the keys of a v3 book.
#[derive(Debug, Clone, Copy, PartialEq, Eq)]
pub enum V3BookError {
    KernelMissing,
    PublisherMissing,
    BookMissing,
    /// The key string arrays cannot be read from the kernel.
    Keystr,
    /// The IV cannot be read from the kernel.
    Iv,
    /// The named file or value is not UTF-8.
    NotUtf8(&'static str),
    /// The named file or value does not decrypt.
    Decrypt(&'static str),
    /// The named file is not JSON.
    Json(&'static str),
    /// `publisher.json` has no `fernusCode` string.
    FernusCodeMissing,
}

/// The data of the last extracted file with path `p`.
pub open spec fn lookup_last(files: Seq<ExtractedFile>, p: Seq<char>) -> Option<Seq<u8>>
    decreases files.len(),
{
    if files.len() == 0 {
        None
    } else if files.last().path@ == p {
        Some(files.last().data@)
    } else {
        lookup_last(files.drop_last(), p)
    }
}

/// A file by its `/` path, or else by its `\` path.
pub open spec fn lookup2(files: Seq<ExtractedFile>, a: Seq<char>, b: Seq<char>) -> Option<Seq<u8>> {
    match lookup_last(files, a) {
        Some(d) => Some(d),
        None => lookup_last(files, b),
    }
}

/// The key string of a kernel, when both arrays read and have one length.
pub open spec fn spec_keystr(kernel: Seq<u8>) -> Option<Seq<char>> {
    match (spec_envied_array(kernel, "key"@), spec_envied_array(kernel, "data"@)) {
        (EnviedArray::Ints(k), EnviedArray::Ints(d)) => if k.len() == d.len() {
            Some(keystr_chars(k, d))
        } else {
            None
        },
        _ => None,
    }
}

/// Decryption of an encrypted text file: UTF-8, trimmed, decrypted, and
/// the result UTF-8 again.
pub open spec fn spec_decrypt_text(enc: Seq<u8>, key: Seq<u8>, iv: Seq<u8>, what: &'static str) -> Result<Seq<u8>, V3BookError> {
    if !valid_utf8(enc) {
        Err(V3BookError::NotUtf8(what))
    } else {
        match spec_decrypt_string(trim(decode_utf8(enc)), key, iv) {
            Some(Ok(b)) => if valid_utf8(b) {
                Ok(b)
            } else {
                Err(V3BookError::NotUtf8(what))
            },
            _ => Err(V3BookError::Decrypt(what)),
        }
    }
}

/// The book key and IV of a v3 book, from its extracted files.
pub open spec fn spec_v3_keys(files: Seq<ExtractedFile>) -> Result<(Seq<u8>, Seq<u8>), V3BookError> {
    match lookup2(files, "data/flutter_assets/kernel_blob.bin"@, "data\\flutter_assets\\kernel_blob.bin"@) {
        None => Err(V3BookError::KernelMissing),
        Some(kernel) => match spec_keystr(kernel) {
            None => Err(V3BookError::Keystr),
            Some(keystr) => match spec_extract_iv(kernel) {
                Err(_) => Err(V3BookError::Iv),
                Ok(iv) => match lookup2(files, "publisher/publisher.json"@, "publisher\\publisher.json"@) {
                    None => Err(V3BookError::PublisherMissing),
                    Some(pub_enc) => match spec_decrypt_text(pub_enc, encode_utf8(keystr), iv, "publisher.json") {
                        Err(e) => Err(e),
                        Ok(pub_json) => match json_string_field(decode_utf8(pub_json), "fernusCode"@) {
                            Err(()) => Err(V3BookError::Json("publisher.json")),
                            Ok(None) => Err(V3BookError::FernusCodeMissing),
                            Ok(Some(fc_enc)) => match spec_decrypt_string(fc_enc, encode_utf8(keystr), iv) {
                                Some(Ok(fc)) => if !valid_utf8(fc) {
                                    Err(V3BookError::NotUtf8("fernusCode"))
                                } else {
                                    let book_key = spec_create_key(fc, encode_utf8(keystr));
                                    match lookup2(files, "publisher/book/book.json"@, "publisher\\book\\book.json"@) {
                                        None => Err(V3BookError::BookMissing),
                                        Some(book_enc) => match spec_decrypt_text(book_enc, book_key, iv, "book.json") {
                                            Err(e) => Err(e),
                                            Ok(book_json) => match json_string_field(decode_utf8(book_json), "bookName"@) {
                                                Err(()) => Err(V3BookError::Json("book.json")),
                                                Ok(_) => Ok((book_key, iv)),
                                            },
                                        },
                                    }
                                },
                                _ => Err(V3BookError::Decrypt("fernusCode")),
                            },
                        },
                    },
                },
            },
        },
    }
}

/// Data of the last file whose path is `p`.
fn find_file<'a>(files: &'a [ExtractedFile], p: &str) -> (r: Option<&'a Vec<u8>>)
    ensures
        match lookup_last(files@, p@) {
            None => r is None,
            Some(d) => r matches Some(v) && v@ == d,
        },
{
    let mut k: usize = files.len();
    assert(files@.subrange(0, k as int) =~= files@);
    while k > 0
        invariant
            k <= files@.len(),
            lookup_last(files@, p@) == lookup_last(files@.subrange(0, k as int), p@),
        decreases k,
    {
        let ghost pre = files@.subrange(0, k as int);
        assert(pre.drop_last() =~= files@.subrange(0, k - 1));
        assert(pre.last() == files@[k - 1]);
        if crate::bytes::str_eq(files[k - 1].path.as_str(), p) {
            return Some(&files[k - 1].data);
        }
        k = k - 1;
    }
    None
}

fn find_file2<'a>(files: &'a [ExtractedFile], a: &str, b: &str) -> (r: Option<&'a Vec<u8>>)
    ensures
        match lookup2(files@, a@, b@) {
            None => r is None,
            Some(d) => r matches Some(v) && v@ == d,
        },
{
    match find_file(files, a) {
        Some(v) => Some(v),
        None => find_file(files, b),
    }
}

/// Decrypt an encrypted text file of a v3 book.
fn decrypt_text(enc: &Vec<u8>, key: &[u8], iv: &[u8], what: &'static str) -> (r: Result<Vec<u8>, V3BookError>)
    ensures
        match spec_decrypt_text(enc@, key@, iv@, what) {
            Ok(b) => r matches Ok(v) && v@ == b,
            Err(e) => r == Err::<Vec<u8>, V3BookError>(e),
        },
{
    let text = match string_from_utf8(copy_range(enc.as_slice(), 0, enc.len())) {
        Some(t) => t,
        None => {
            assert(enc@.subrange(0, enc@.len() as int) =~= enc@);
            return Err(V3BookError::NotUtf8(what));
        },
    };
    assert(enc@.subrange(0, enc@.len() as int) =~= enc@);
    let trimmed = string_of_chars(&trim_chars(&str_chars(text.as_str())));
    let plain = match decrypt_string(trimmed.as_str(), key, iv) {
        Ok(p) => p,
        Err(_) => return Err(V3BookError::Decrypt(what)),
    };
    let check = copy_range(plain.as_slice(), 0, plain.len());
    assert(check@ =~= plain@);
    match string_from_utf8(check) {
        Some(_) => Ok(plain),
        None => Err(V3BookError::NotUtf8(what)),
    }
}

/// Derive the book key and IV of a v3 book from its extracted files: the
/// key string and IV from `kernel_blob.bin`, the `fernusCode` from the
/// decrypted `publisher.json`, the book key from both, checked by
/// decrypting `book.json`.
pub fn prepare_v3_keys(extracted: &[ExtractedFile]) -> (r: Result<(Vec<u8>, Vec<u8>), V3BookError>)
    ensures
        match spec_v3_keys(extracted@) {
            Ok((k, iv)) => r matches Ok((a, b)) && a@ == k && b@ == iv,
            Err(e) => r == Err::<(Vec<u8>, Vec<u8>), V3BookError>(e),
        },
{
    let kernel = match find_file2(extracted, "data/flutter_assets/kernel_blob.bin", "data\\flutter_assets\\kernel_blob.bin") {
        Some(k) => k,
        None => return Err(V3BookError::KernelMissing),
    };
    let keystr = match extract_keystr(kernel.as_slice()) {
        Ok(k) => k,
        Err(_) => return Err(V3BookError::Keystr),
    };
    let iv_str = match extract_iv(kernel.as_slice()) {
        Ok(v) => v,
        Err(_) => return Err(V3BookError::Iv),
    };
    let iv = iv_str.as_str().as_bytes();
    let keystr_bytes = keystr.as_str().as_bytes();
    let pub_enc = match find_file2(extracted, "publisher/publisher.json", "publisher\\publisher.json") {
        Some(p) => p,
        None => return Err(V3BookError::PublisherMissing),
    };
    let pub_json = decrypt_text(pub_enc, keystr_bytes, iv, "publisher.json")?;
    let pub_text = match string_from_utf8(pub_json) {
        Some(t) => t,
        None => return Err(V3BookError::NotUtf8("publisher.json")),
    };
    let fernus_code_enc = match json_str_field(pub_text.as_str(), "fernusCode") {
        Err(()) => return Err(V3BookError::Json("publisher.json")),
        Ok(None) => return Err(V3BookError::FernusCodeMissing),
        Ok(Some(c)) => c,
    };
    let fc = match decrypt_string(fernus_code_enc.as_str(), keystr_bytes, iv) {
        Ok(b) => b,
        Err(_) => return Err(V3BookError::Decrypt("fernusCode")),
    };
    let fernus_code = match string_from_utf8(fc) {
        Some(t) => t,
        None => return Err(V3BookError::NotUtf8("fernusCode")),
    };
    let book_key = create_key(fernus_code.as_str(), keystr.as_str());
    let book_enc = match find_file2(extracted, "publisher/book/book.json", "publisher\\book\\book.json") {
        Some(b) => b,
        None => return Err(V3BookError::BookMissing),
    };
    let book_json = decrypt_text(book_enc, book_key.as_slice(), iv, "book.json")?;
    let book_text = match string_from_utf8(book_json) {
        Some(t) => t,
        None => return Err(V3BookError::NotUtf8("book.json")),
    };
    match json_str_field(book_text.as_str(), "bookName") {
        Err(()) => return Err(V3BookError::Json("book.json")),
        Ok(_) => {},
    }
    let iv_out = copy_range(iv, 0, iv.len());
    assert(iv_out@ =~= iv@);
    Ok((book_key, iv_out))
}

// ---------------------------------------------------------------------------
// Format detection and payload collection
// ---------------------------------------------------------------------------

/// A readable PE file with a section named `.enigma1` (an Enigma Virtual
/// Box executable, the v3 format).
pub open spec fn spec_has_enigma(raw: Seq<u8>) -> bool {
    &&& pe_headers_readable(raw)
    &&& pe_signature_ok(raw)
    &&& exists|pe: PeInfo, i: int|
        pe_describes(pe, raw) && 0 <= i < pe.sections@.len() && #[trigger] pe.sections@[i].name@ == ".enigma1"@
}

/// Whether the bytes of an executable are an Enigma Virtual Box image.
pub fn has_enigma(raw: &[u8]) -> (r: bool)
    ensures
        r == spec_has_enigma(raw@),
{
    if !PeInfo::headers_readable(raw) {
        return false;
    }
    let pe = match PeInfo::parse(raw) {
        Ok(pe) => pe,
        Err(_) => return false,
    };
    let mut i: usize = 0;
    while i < pe.sections.len()
        invariant
            i <= pe.sections@.len(),
            pe_describes(pe, raw@),
            pe_signature_ok(raw@),
            forall|j: int| 0 <= j < i ==> pe.sections@[j].name@ != ".enigma1"@,
        decreases pe.sections.len() - i,
    {
        if crate::bytes::str_eq(pe.sections[i].name.as_str(), ".enigma1") {
            return true;
        }
        i = i + 1;
    }
    proof {
        assert forall|q: PeInfo, j: int| pe_describes(q, raw@) && 0 <= j < q.sections@.len() implies #[trigger] q.sections@[j].name@ != ".enigma1"@ by {
            assert(q.sections@.len() == pe.sections@.len());
            assert(crate::pe::section_is(q.sections@[j], raw@, crate::pe::section_table_start(raw@) + 40 * j));
            assert(crate::pe::section_is(pe.sections@[j], raw@, crate::pe::section_table_start(raw@) + 40 * j));
        }
    }
    false
}

/// `h` contains `n`.
pub open spec fn has_run(h: Seq<char>, n: Seq<char>) -> bool {
    exists|i: int| chars_at_spec(h, n, i)
}

/// Indices of the names that contain (or, with `want` false, do not
/// contain) `sysb`, in order.
pub open spec fn indices_where_sysb(names: Seq<Seq<char>>, want: bool) -> Seq<usize>
    decreases names.len(),
{
    if names.len() == 0 {
        Seq::empty()
    } else if has_run(names.last(), "sysb"@) == want {
        indices_where_sysb(names.drop_last(), want).push((names.len() - 1) as usize)
    } else {
        indices_where_sysb(names.drop_last(), want)
    }
}

/// Rendering order of the SWFs: those whose name contains `sysb` (the page
/// content) first, the others (masks) after, each group in its order.
pub open spec fn spec_sysb_first(names: Seq<Seq<char>>) -> Seq<usize> {
    indices_where_sysb(names, true) + indices_where_sysb(names, false)
}

pub open spec fn string_views(v: Seq<String>) -> Seq<Seq<char>> {
    v.map_values(|s: String| s@)
}

fn contains_sysb(name: &String) -> (r: bool)
    ensures
        r == has_run(name@, "sysb"@),
{
    let h = str_chars(name.as_str());
    let n = str_chars("sysb");
    match find_chars(&h, &n) {
        Some(_) => true,
        None => {
            reveal(find_chars_spec);
            false
        },
    }
}

fn indices_with(names: &Vec<String>, want: bool) -> (r: Vec<usize>)
    ensures
        r@ == indices_where_sysb(string_views(names@), want),
{
    let mut out: Vec<usize> = Vec::new();
    let mut k: usize = 0;
    while k < names.len()
        invariant
            k <= names@.len(),
            out@ == indices_where_sysb(string_views(names@).subrange(0, k as int), want),
        decreases names.len() - k,
    {
        let ghost pre = string_views(names@).subrange(0, k + 1);
        assert(pre.drop_last() =~= string_views(names@).subrange(0, k as int));
        assert(pre.last() == names@[k as int]@);
        if contains_sysb(&names[k]) == want {
            out.push(k);
        }
        k = k + 1;
    }
    assert(string_views(names@).subrange(0, names@.len() as int) =~= string_views(names@));
    out
}

/// The order in which SWFs are rendered, as indices into `names`: content
/// (`sysb`) before masks, otherwise as given.
pub fn sysb_first(names: &Vec<String>) -> (r: Vec<usize>)
    ensures
        r@ == spec_sysb_first(string_views(names@)),
{
    let mut first = indices_with(names, true);
    let mut rest = indices_with(names, false);
    first.append(&mut rest);
    first
}

/// A file dropped by the projector that is worth reading.
pub open spec fn spec_is_payload_file(name: Seq<char>) -> bool {
    ends_with_chars(name, ".dll"@) || ends_with_chars(name, ".frns"@) || ends_with_chars(name, ".kxk"@)
}

/// Whether a file name is that of a payload (`.dll`, `.frns` or `.kxk`).
pub fn is_payload_file(name: &str) -> (r: bool)
    ensures
        r == spec_is_payload_file(name@),
{
    let n = str_chars(name);
    suffix_is(&n, &str_chars(".dll")) || suffix_is(&n, &str_chars(".frns")) || suffix_is(&n, &str_chars(".kxk"))
}

/// Idle time after the last payload after which watching stops (ms).
pub const IDLE_TIMEOUT_MS: u64 = 30000;

/// Longest time watching lasts (ms).
pub const MAX_TIMEOUT_MS: u64 = 120000;

/// Watching stops once payloads were seen and none came for the idle
/// time, or once the whole time is up.
pub open spec fn spec_should_stop(has_payloads: bool, idle_ms: u64, total_ms: u64) -> bool {
    (has_payloads && idle_ms >= IDLE_TIMEOUT_MS) || total_ms >= MAX_TIMEOUT_MS
}

/// Whether the watcher should stop, given whether payloads were collected,
/// the time since the last one and the time since the start.
pub fn should_stop(has_payloads: bool, idle_ms: u64, total_ms: u64) -> (r: bool)
    ensures
        r == spec_should_stop(has_payloads, idle_ms, total_ms),
{
    if has_payloads && idle_ms >= IDLE_TIMEOUT_MS {
        return true;
    }
    if total_ms >= MAX_TIMEOUT_MS {
        return true;
    }
    false
}

/// When no configuration file decrypts, the default code
/// `{33, 20, 10}` is used.
pub proof fn law_resolve_falls_back_to_default(probes: Seq<ConfigProbe>)
    requires
        forall|i: int| 0 <= i < probes.len() ==> (#[trigger] probes[i]).decrypted is None,
    ensures
        spec_resolve(probes) == KryParse::Code(KryCode { f1: 33, f2: 20, f3: 10 }),
    decreases probes.len(),
{
    if probes.len() > 0 {
        assert(probes[0].decrypted is None);
        let rest = probes.drop_first();
        assert forall|i: int| 0 <= i < rest.len() implies (#[trigger] rest[i]).decrypted is None by {
            assert(rest[i] == probes[i + 1]);
        }
        law_resolve_falls_back_to_default(rest);
    }
}

proof fn lemma_indices(names: Seq<Seq<char>>, want: bool)
    requires
        names.len() <= usize::MAX,
    ensures
        forall|k: int| 0 <= k < indices_where_sysb(names, want).len() ==> #[trigger] indices_where_sysb(names, want)[k] < names.len(),
        forall|j: int, k: int|
            0 <= j < k < indices_where_sysb(names, want).len() ==> #[trigger] indices_where_sysb(names, want)[j]
                < #[trigger] indices_where_sysb(names, want)[k],
        forall|i: int|
            0 <= i < names.len() ==> (indices_where_sysb(names, want).contains(i as usize) <==> has_run(#[trigger] names[i], "sysb"@) == want),
    decreases names.len(),
{
    if names.len() > 0 {
        let t = names.drop_last();
        lemma_indices(t, want);
        let p = indices_where_sysb(t, want);
        let last = (names.len() - 1) as usize;
        if has_run(names.last(), "sysb"@) == want {
            let q = p.push(last);
            assert(indices_where_sysb(names, want) == q);
            assert forall|j: int, k: int| 0 <= j < k < q.len() implies #[trigger] q[j] < #[trigger] q[k] by {
                if k == q.len() - 1 {
                    assert(q[j] == p[j]);
                } else {
                    assert(q[j] == p[j]);
                    assert(q[k] == p[k]);
                }
            }
        }
        assert forall|i: int| 0 <= i < names.len() implies (indices_where_sysb(names, want).contains(i as usize) <==> has_run(#[trigger] names[i], "sysb"@) == want) by {
            if i < names.len() - 1 {
                assert(names[i] == t[i]);
                if has_run(names.last(), "sysb"@) == want {
                    assert(indices_where_sysb(names, want) == p.push(last));
                    if p.push(last).contains(i as usize) && !p.contains(i as usize) {
                        let k = choose|k: int| 0 <= k < p.push(last).len() && p.push(last)[k] == i as usize;
                        if k < p.len() {
                            assert(p[k] == i as usize);
                        }
                    }
                    if p.contains(i as usize) {
                        let k = choose|k: int| 0 <= k < p.len() && p[k] == i as usize;
                        assert(p.push(last)[k] == i as usize);
                    }
                }
            } else {
                if has_run(names.last(), "sysb"@) == want {
                    assert(indices_where_sysb(names, want)[p.len() as int] == last);
                } else {
                    if p.contains(last) {
                        let k = choose|k: int| 0 <= k < p.len() && p[k] == last;
                        assert(p[k] < t.len());
                    }
                }
            }
        }
    }
}

/// The rendering order lists every SWF exactly once: those whose name
/// contains `sysb` first, then the others, each group in its original
/// order (a stable partition).
pub proof fn law_sysb_first_is_stable_partition(names: Seq<Seq<char>>)
    requires
        names.len() <= usize::MAX,
    ensures
        spec_sysb_first(names).len() == names.len(),
        forall|i: int| 0 <= i < names.len() ==> #[trigger] spec_sysb_first(names).contains(i as usize),
        forall|k: int|
            0 <= k < indices_where_sysb(names, true).len() ==> has_run(names[#[trigger] spec_sysb_first(names)[k] as int], "sysb"@),
        forall|j: int, k: int|
            0 <= j < k < indices_where_sysb(names, true).len() ==> #[trigger] spec_sysb_first(names)[j] < #[trigger] spec_sysb_first(names)[k],
        forall|j: int, k: int|
            indices_where_sysb(names, true).len() <= j < k < names.len() ==> #[trigger] spec_sysb_first(names)[j] < #[trigger] spec_sysb_first(names)[k],
    decreases names.len(),
{
    lemma_indices(names, true);
    lemma_indices(names, false);
    let a = indices_where_sysb(names, true);
    let b = indices_where_sysb(names, false);
    lemma_partition_len(names);
    assert forall|i: int| 0 <= i < names.len() implies #[trigger] spec_sysb_first(names).contains(i as usize) by {
        if has_run(names[i], "sysb"@) {
            let k = choose|k: int| 0 <= k < a.len() && a[k] == i as usize;
            assert((a + b)[k] == i as usize);
        } else {
            let k = choose|k: int| 0 <= k < b.len() && b[k] == i as usize;
            assert((a + b)[a.len() + k] == i as usize);
        }
    }
    assert forall|k: int| 0 <= k < a.len() implies has_run(names[#[trigger] spec_sysb_first(names)[k] as int], "sysb"@) by {
        assert((a + b)[k] == a[k]);
        assert(a.contains(a[k]));
    }
    assert forall|j: int, k: int| a.len() <= j < k < names.len() implies #[trigger] spec_sysb_first(names)[j] < #[trigger] spec_sysb_first(names)[k] by {
        assert((a + b)[j] == b[j - a.len()]);
        assert((a + b)[k] == b[k - a.len()]);
    }
}

proof fn lemma_partition_len(names: Seq<Seq<char>>)
    ensures
        indices_where_sysb(names, true).len() + indices_where_sysb(names, false).len() == names.len(),
    decreases names.len(),
{
    if names.len() > 0 {
        lemma_partition_len(names.drop_last());
    }
}

/// Every page or layer of classified files comes from one of the files:
/// a `.webp` file, not a thumbnail, whose content is a WebP image and
/// whose name gives its number.
proof fn lemma_v3_sources(items: Seq<V3Item>)
    ensures
        forall|k: int| 0 <= k < v3_pages(items).len() ==> exists|i: int|
            0 <= i < items.len() && items[i] == V3Item::Page(#[trigger] v3_pages(items)[k].0, v3_pages(items)[k].1),
        forall|n: usize| #[trigger] v3_layers(items).contains_key(n) ==> exists|i: int|
            0 <= i < items.len() && items[i] == V3Item::Layer(n, v3_layers(items)[n]),
    decreases items.len(),
{
    if items.len() > 0 {
        let t = items.drop_last();
        lemma_v3_sources(t);
        assert forall|k: int| 0 <= k < v3_pages(items).len() implies exists|i: int|
            0 <= i < items.len() && items[i] == V3Item::Page(#[trigger] v3_pages(items)[k].0, v3_pages(items)[k].1) by {
            if k < v3_pages(t).len() {
                assert(v3_pages(items)[k] == v3_pages(t)[k]);
                let i = choose|i: int| 0 <= i < t.len() && t[i] == V3Item::Page(v3_pages(t)[k].0, v3_pages(t)[k].1);
                assert(items[i] == t[i]);
            } else {
                assert(items[items.len() - 1] == items.last());
            }
        }
        assert forall|n: usize| #[trigger] v3_layers(items).contains_key(n) implies exists|i: int|
            0 <= i < items.len() && items[i] == V3Item::Layer(n, v3_layers(items)[n]) by {
            match items.last() {
                V3Item::Layer(m, d) => {
                    if n == m {
                        assert(items[items.len() - 1] == items.last());
                    } else {
                        let i = choose|i: int| 0 <= i < t.len() && t[i] == V3Item::Layer(n, v3_layers(t)[n]);
                        assert(items[i] == t[i]);
                    }
                },
                _ => {
                    let i = choose|i: int| 0 <= i < t.len() && t[i] == V3Item::Layer(n, v3_layers(t)[n]);
                    assert(items[i] == t[i]);
                },
            }
        }
    }
}

/// The pages collected from a v3 book are in page-number order, and each
/// page and each layer is the WebP content of one of the book's files,
/// classified by that file's name (a `.webp` path, a `p-N` or `p-l-N`
/// name, never a `t-` thumbnail).
pub proof fn law_v3_assets_come_from_named_files(files: Seq<ExtractedFile>, names: Seq<Seq<char>>, key: Seq<u8>, iv: Seq<u8>)
    requires
        names.len() == files.len(),
    ensures
        ({
            let items = v3_items(files, names, key, iv);
            let pages = sort_by_number(v3_pages(items));
            &&& sorted_by_number(pages)
            &&& forall|k: int| 0 <= k < pages.len() ==> exists|i: int|
                0 <= i < files.len() && spec_v3_item(lowercase(files[i].path@), lowercase(names[i]), files[i].data@, key, iv)
                    == V3Item::Page(#[trigger] pages[k].0, pages[k].1)
            &&& forall|n: usize| #[trigger] v3_layers(items).contains_key(n) ==> exists|i: int|
                0 <= i < files.len() && spec_v3_item(lowercase(files[i].path@), lowercase(names[i]), files[i].data@, key, iv)
                    == V3Item::Layer(n, v3_layers(items)[n])
        }),
{
    let items = v3_items(files, names, key, iv);
    let raw = v3_pages(items);
    let pages = sort_by_number(raw);
    law_pages_sorted(raw);
    lemma_v3_sources(items);
    assert forall|k: int| 0 <= k < pages.len() implies exists|i: int|
        0 <= i < files.len() && spec_v3_item(lowercase(files[i].path@), lowercase(names[i]), files[i].data@, key, iv)
            == V3Item::Page(#[trigger] pages[k].0, pages[k].1) by {
        broadcast use vstd::seq_lib::group_seq_properties;
        pages.to_multiset_ensures();
        raw.to_multiset_ensures();
        assert(pages.contains(pages[k]));
        assert(raw.to_multiset().count(pages[k]) > 0);
        assert(raw.contains(pages[k]));
        let j = choose|j: int| 0 <= j < raw.len() && raw[j] == pages[k];
        assert(raw[j].0 == pages[k].0 && raw[j].1 == pages[k].1);
        let i = choose|i: int| 0 <= i < items.len() && items[i] == V3Item::Page(raw[j].0, raw[j].1);
        assert(items[i] == spec_v3_item(lowercase(files[i].path@), lowercase(names[i]), files[i].data@, key, iv));
    }
    assert forall|n: usize| #[trigger] v3_layers(items).contains_key(n) implies exists|i: int|
        0 <= i < files.len() && spec_v3_item(lowercase(files[i].path@), lowercase(names[i]), files[i].data@, key, iv)
            == V3Item::Layer(n, v3_layers(items)[n]) by {
        let i = choose|i: int| 0 <= i < items.len() && items[i] == V3Item::Layer(n, v3_layers(items)[n]);
        assert(items[i] == spec_v3_item(lowercase(files[i].path@), lowercase(names[i]), files[i].data@, key, iv));
    }
}

} // verus!
