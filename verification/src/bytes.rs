//! Byte-level helpers shared by the format readers.
use vstd::prelude::*;
use vstd::string::StringExecFns;

verus! {

/// Little-endian `u16` stored at `at`.
pub open spec fn spec_u16_le(data: Seq<u8>, at: int) -> u16 {
    ((data[at] as u16) | ((data[at + 1] as u16) << 8u16)) as u16
}

/// Little-endian `u32` stored at `at`.
pub open spec fn spec_u32_le(data: Seq<u8>, at: int) -> u32 {
    (data[at] as u32) | ((data[at + 1] as u32) << 8u32) | ((data[at + 2] as u32) << 16u32) | ((data[at
        + 3] as u32) << 24u32)
}

/// Read a little-endian `u16` at `at`.
pub fn read_u16_le(data: &[u8], at: usize) -> (r: u16)
    requires
        at + 2 <= data@.len(),
    ensures
        r == spec_u16_le(data@, at as int),
{
    (data[at] as u16) | ((data[at + 1] as u16) << 8)
}

/// Read a little-endian `u32` at `at`.
pub fn read_u32_le(data: &[u8], at: usize) -> (r: u32)
    requires
        at + 4 <= data@.len(),
    ensures
        r == spec_u32_le(data@, at as int),
{
    (data[at] as u32) | ((data[at + 1] as u32) << 8) | ((data[at + 2] as u32) << 16) | ((data[at
        + 3] as u32) << 24)
}

/// The bytes of `data` from `i` up to `j`.
pub fn slice_range(data: &[u8], i: usize, j: usize) -> (r: &[u8])
    requires
        i <= j <= data@.len(),
    ensures
        r@ == data@.subrange(i as int, j as int),
{
    vstd::slice::slice_subrange(data, i, j)
}

/// Copy of the bytes from `i` up to `j`.
pub fn copy_range(data: &[u8], i: usize, j: usize) -> (r: Vec<u8>)
    requires
        i <= j <= data@.len(),
    ensures
        r@ == data@.subrange(i as int, j as int),
{
    let mut out: Vec<u8> = Vec::new();
    let mut k = i;
    while k < j
        invariant
            i <= k <= j <= data@.len(),
            out@ == data@.subrange(i as int, k as int),
        decreases j - k,
    {
        out.push(data[k]);
        k = k + 1;
    }
    out
}

/// Whether two byte strings are equal.
pub fn bytes_eq(a: &[u8], b: &[u8]) -> (r: bool)
    ensures
        r == (a@ == b@),
{
    if a.len() != b.len() {
        return false;
    }
    let mut i: usize = 0;
    while i < a.len()
        invariant
            a@.len() == b@.len(),
            i <= a@.len(),
            forall|k: int| 0 <= k < i ==> a@[k] == b@[k],
        decreases a.len() - i,
    {
        if a[i] != b[i] {
            return false;
        }
        i = i + 1;
    }
    assert(a@ =~= b@);
    true
}

/// Whether `pat` occurs in `data` at `at`.
pub open spec fn occurs_at(data: Seq<u8>, pat: Seq<u8>, at: int) -> bool {
    0 <= at && at + pat.len() <= data.len() && data.subrange(at, at + pat.len()) == pat
}

/// Whether `data` holds `pat` at `at` (false when it would run past the end).
pub fn matches_at(data: &[u8], pat: &[u8], at: usize) -> (r: bool)
    ensures
        r == occurs_at(data@, pat@, at as int),
{
    if pat.len() > data.len() || at > data.len() - pat.len() {
        return false;
    }
    let mut i: usize = 0;
    while i < pat.len()
        invariant
            at + pat@.len() <= data@.len(),
            data@.len() == data.len(),
            i <= pat@.len(),
            forall|k: int| 0 <= k < i ==> data@[at + k] == pat@[k],
        decreases pat.len() - i,
    {
        if data[at + i] != pat[i] {
            assert(data@.subrange(at as int, at + pat@.len())[i as int] != pat@[i as int]);
            return false;
        }
        i = i + 1;
    }
    assert(data@.subrange(at as int, at + pat@.len()) =~= pat@);
    true
}

/// First position at which `pat` occurs in `data` (the first window of
/// `data` equal to `pat`), if any.
pub open spec fn first_occurrence(data: Seq<u8>, pat: Seq<u8>) -> Option<int> {
    if exists|i: int| occurs_at(data, pat, i) {
        Some(choose|i: int| occurs_at(data, pat, i) && forall|j: int| 0 <= j < i ==> !occurs_at(data, pat, j))
    } else {
        None
    }
}

/// Search for the first occurrence of `pat` (which is not empty) in `data`.
pub fn find_bytes(data: &[u8], pat: &[u8]) -> (r: Option<usize>)
    requires
        pat@.len() > 0,
    ensures
        match r {
            Some(i) => occurs_at(data@, pat@, i as int) && forall|j: int| 0 <= j < i ==> !occurs_at(data@, pat@, j),
            None => forall|j: int| !occurs_at(data@, pat@, j),
        },
        r matches Some(i) ==> first_occurrence(data@, pat@) == Some(i as int),
        r is None ==> first_occurrence(data@, pat@) is None,
{
    if pat.len() > data.len() {
        return None;
    }
    let last = data.len() - pat.len();
    let mut i: usize = 0;
    while i <= last
        invariant
            last + pat@.len() == data@.len(),
            data@.len() == data.len(),
            pat@.len() > 0,
            forall|j: int| 0 <= j < i ==> !occurs_at(data@, pat@, j),
        decreases last + 1 - i,
    {
        if matches_at(data, pat, i) {
            proof {
                let w = choose|k: int| occurs_at(data@, pat@, k) && forall|j: int| 0 <= j < k ==> !occurs_at(data@, pat@, j);
                assert(occurs_at(data@, pat@, w));
                if w < i {
                } else if w > i {
                    assert(!occurs_at(data@, pat@, i as int));
                }
            }
            return Some(i);
        }
        i = i + 1;
    }
    None
}

/// The bytes of `s` before its first zero byte (all of `s` if it has none).
pub open spec fn before_nul(s: Seq<u8>) -> Seq<u8>
    decreases s.len(),
{
    if s.len() == 0 {
        s
    } else if s[0] == 0 {
        Seq::empty()
    } else {
        seq![s[0]].add(before_nul(s.drop_first()))
    }
}

/// Text of a byte string read as UTF-8, with invalid sequences replaced by
/// U+FFFD.
pub uninterp spec fn utf8_lossy(bytes: Seq<u8>) -> Seq<char>;

/// `String::from_utf8_lossy(..).into_owned()`: the text of a byte string,
/// invalid UTF-8 sequences replaced by U+FFFD.  Stated: the result is the
/// named text of the bytes and, for valid UTF-8, the bytes are kept as they
/// are.
#[verifier::external_body]
pub(crate) fn string_from_utf8_lossy(bytes: &[u8]) -> (s: String)
    ensures
        s@ == utf8_lossy(bytes@),
        vstd::utf8::valid_utf8(bytes@) ==> s@ == vstd::utf8::decode_utf8(bytes@),
{
    String::from_utf8_lossy(bytes).into_owned()
}

/// `before_nul` of a string whose first zero byte (if any) is at `k`.
pub proof fn lemma_before_nul(s: Seq<u8>, k: int)
    requires
        0 <= k <= s.len(),
        forall|j: int| 0 <= j < k ==> s[j] != 0,
        k == s.len() || s[k] == 0,
    ensures
        before_nul(s) == s.subrange(0, k),
    decreases s.len(),
{
    if s.len() == 0 {
        assert(s.subrange(0, k) =~= s);
    } else if s[0] == 0 {
        assert(s.subrange(0, k) =~= Seq::<u8>::empty());
    } else {
        let t = s.drop_first();
        assert forall|j: int| 0 <= j < k - 1 implies t[j] != 0 by {
            assert(s[j + 1] != 0);
        }
        lemma_before_nul(t, k - 1);
        assert(seq![s[0]].add(t.subrange(0, k - 1)) =~= s.subrange(0, k));
    }
}

/// Length of the part of `s` before its first zero byte.
pub fn nul_prefix_len(s: &[u8]) -> (k: usize)
    ensures
        k <= s@.len(),
        s@.subrange(0, k as int) == before_nul(s@),
{
    let mut k: usize = 0;
    while k < s.len() && s[k] != 0
        invariant
            k <= s@.len(),
            forall|j: int| 0 <= j < k ==> s@[j] != 0,
        decreases s.len() - k,
    {
        k = k + 1;
    }
    proof {
        lemma_before_nul(s@, k as int);
    }
    k
}

/// A high (leading) surrogate.
pub open spec fn is_high_surrogate(u: u16) -> bool {
    0xD800 <= u <= 0xDBFF
}

/// A low (trailing) surrogate.
pub open spec fn is_low_surrogate(u: u16) -> bool {
    0xDC00 <= u <= 0xDFFF
}

/// Text of a sequence of UTF-16 code units: a unit outside the surrogate
/// range is its own character, a high surrogate followed by a low one is
/// the supplementary character they encode, and every other (unpaired)
/// surrogate becomes U+FFFD.
pub open spec fn utf16_lossy(units: Seq<u16>) -> Seq<char>
    decreases units.len(),
{
    if units.len() == 0 {
        Seq::empty()
    } else if !(is_high_surrogate(units[0]) || is_low_surrogate(units[0])) {
        seq![(units[0] as u32) as char] + utf16_lossy(units.drop_first())
    } else if is_high_surrogate(units[0]) && units.len() >= 2 && is_low_surrogate(units[1]) {
        seq![(0x10000 + (((units[0] - 0xD800) as u32) << 10u32) + ((units[1] - 0xDC00) as u32)) as char]
            + utf16_lossy(units.subrange(2, units.len() as int))
    } else {
        seq!['\u{FFFD}'] + utf16_lossy(units.drop_first())
    }
}

/// `String::from_utf16_lossy`: the text of UTF-16 code units, each
/// unpaired surrogate replaced by U+FFFD (see [`utf16_lossy`]).
#[verifier::external_body]
pub(crate) fn string_from_utf16_lossy(units: &[u16]) -> (s: String)
    ensures
        s@ == utf16_lossy(units@),
{
    String::from_utf16_lossy(units)
}

/// Append `t` to `s`.
pub(crate) fn string_push_str(s: &mut String, t: &str)
    ensures
        final(s)@ == old(s)@ + t@,
{
    s.append(t)
}

/// `String::push`: appends the character `c` to `s`.
#[verifier::external_body]
pub(crate) fn string_push(s: &mut String, c: char)
    ensures
        final(s)@ == old(s)@.push(c),
{
    s.push(c)
}

/// Whether two string slices are equal.
pub fn str_eq(a: &str, b: &str) -> (r: bool)
    ensures
        r == (a@ == b@),
{
    let x = a.as_bytes();
    let y = b.as_bytes();
    let r = bytes_eq(x, y);
    proof {
        vstd::utf8::encode_utf8_decode_utf8(a@);
        vstd::utf8::encode_utf8_decode_utf8(b@);
    }
    r
}

/// Append the bytes of `src` to `out`.
pub fn append_bytes(out: &mut Vec<u8>, src: &[u8])
    ensures
        final(out)@ == old(out)@ + src@,
{
    let mut k: usize = 0;
    let ghost out0 = out@;
    while k < src.len()
        invariant
            k <= src@.len(),
            out0 == old(out)@,
            out@ == out0 + src@.subrange(0, k as int),
        decreases src.len() - k,
    {
        out.push(src[k]);
        k = k + 1;
        assert(out0 + src@.subrange(0, k as int) =~= (out0 + src@.subrange(0, k - 1)).push(src@[k - 1]));
    }
    assert(src@.subrange(0, src@.len() as int) =~= src@);
}

/// The characters of a string slice.
pub fn str_chars(s: &str) -> (v: Vec<char>)
    ensures
        v@ == s@,
{
    broadcast use vstd::string::axiom_spec_iter;
    let mut v: Vec<char> = Vec::new();
    for c in it: s.chars()
        invariant
            v@ == it.seq().subrange(0, it.index() as int),
    {
        v.push(c);
    }
    v
}

/// UTF-8 encoding distributes over concatenation.
pub proof fn lemma_encode_utf8_concat(a: Seq<char>, b: Seq<char>)
    ensures
        vstd::utf8::encode_utf8(a + b) == vstd::utf8::encode_utf8(a) + vstd::utf8::encode_utf8(b),
    decreases a.len(),
{
    if a.len() == 0 {
        assert(a + b =~= b);
        assert(vstd::utf8::encode_utf8(a) + vstd::utf8::encode_utf8(b) =~= vstd::utf8::encode_utf8(b));
    } else {
        assert((a + b).drop_first() =~= a.drop_first() + b);
        lemma_encode_utf8_concat(a.drop_first(), b);
        assert((a + b)[0] == a[0]);
        let e = vstd::utf8::encode_scalar(a[0] as u32);
        assert(e + (vstd::utf8::encode_utf8(a.drop_first()) + vstd::utf8::encode_utf8(b)) =~= (e
            + vstd::utf8::encode_utf8(a.drop_first())) + vstd::utf8::encode_utf8(b));
    }
}

/// The decimal digit `d` (0..=9) as a character.
pub open spec fn digit_char(d: int) -> char {
    if d == 0 {
        '0'
    } else if d == 1 {
        '1'
    } else if d == 2 {
        '2'
    } else if d == 3 {
        '3'
    } else if d == 4 {
        '4'
    } else if d == 5 {
        '5'
    } else if d == 6 {
        '6'
    } else if d == 7 {
        '7'
    } else if d == 8 {
        '8'
    } else {
        '9'
    }
}

/// Decimal notation of `n`, without leading zeros.
pub open spec fn decimal(n: nat) -> Seq<char>
    decreases n,
{
    if n < 10 {
        seq![digit_char(n as int)]
    } else {
        decimal(n / 10).push(digit_char((n % 10) as int))
    }
}

/// `s` behind enough `0` characters to make it `w` characters long.
pub open spec fn zero_padded(s: Seq<char>, w: nat) -> Seq<char> {
    if s.len() >= w {
        s
    } else {
        Seq::new((w - s.len()) as nat, |i: int| '0') + s
    }
}

fn digit_of(d: u64) -> (c: char)
    requires
        d < 10,
    ensures
        c == digit_char(d as int),
{
    if d == 0 {
        '0'
    } else if d == 1 {
        '1'
    } else if d == 2 {
        '2'
    } else if d == 3 {
        '3'
    } else if d == 4 {
        '4'
    } else if d == 5 {
        '5'
    } else if d == 6 {
        '6'
    } else if d == 7 {
        '7'
    } else if d == 8 {
        '8'
    } else {
        '9'
    }
}

/// Append the decimal notation of `n` to `s`.
pub fn push_decimal(s: &mut String, n: u64)
    ensures
        final(s)@ == old(s)@ + decimal(n as nat),
    decreases n,
{
    if n >= 10 {
        push_decimal(s, n / 10);
    }
    let c = digit_of(n % 10);
    let ghost mid = s@;
    string_push(s, c);
    proof {
        if n >= 10 {
            assert(s@ =~= old(s)@ + decimal(n as nat));
        } else {
            assert(s@ =~= old(s)@ + decimal(n as nat));
        }
    }
}

/// Append `n` in decimal, padded with `0` to at least `w` characters.
pub fn push_decimal_padded(s: &mut String, n: u64, w: usize)
    ensures
        final(s)@ == old(s)@ + zero_padded(decimal(n as nat), w as nat),
{
    let mut t = String::new();
    push_decimal(&mut t, n);
    let ghost digits = t@;
    assert(digits =~= decimal(n as nat));
    let len = t.as_str().unicode_len();
    let mut k: usize = len;
    let ghost s0 = s@;
    while k < w
        invariant
            len <= k,
            len == digits.len(),
            len >= w ==> k == len,
            len < w ==> k <= w,
            s@ == s0 + Seq::new((k - len) as nat, |i: int| '0'),
            s0 == old(s)@,
        decreases w - k,
    {
        string_push(s, '0');
        assert(s@ =~= s0 + Seq::new((k + 1 - len) as nat, |i: int| '0'));
        k = k + 1;
    }
    string_push_str(s, t.as_str());
    proof {
        if digits.len() >= w {
            assert(Seq::new((k - len) as nat, |i: int| '0') =~= Seq::<char>::empty());
            assert(s@ =~= old(s)@ + digits);
        } else {
            assert(s@ =~= old(s)@ + (Seq::new((w - digits.len()) as nat, |i: int| '0') + digits));
        }
    }
}

/// Decimal notation of a signed integer (`-` before a negative one).
pub open spec fn signed_decimal(n: int) -> Seq<char> {
    if n < 0 {
        seq!['-'] + decimal((-n) as nat)
    } else {
        decimal(n as nat)
    }
}

/// Append the decimal notation of a signed integer to `s`.
pub fn push_signed_decimal(s: &mut String, n: i64)
    ensures
        final(s)@ == old(s)@ + signed_decimal(n as int),
{
    if n < 0 {
        string_push(s, '-');
        let m: u64 = if n == i64::MIN {
            9223372036854775808u64
        } else {
            (-n) as u64
        };
        let ghost mid = s@;
        push_decimal(s, m);
        assert(s@ =~= old(s)@ + signed_decimal(n as int));
    } else {
        push_decimal(s, n as u64);
    }
}

} // verus!
