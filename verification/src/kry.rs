//! KrySWFCrypto: the byte-shuffling cipher of Fernus SWF payloads, and the
//! `fernusCode` that keys it.
use vstd::prelude::*;
use crate::bytes::{copy_range, str_chars};
use crate::kk::CryptoError;

verus! {

/// Key of the SWF cipher.
#[derive(Debug, Clone, Copy, PartialEq, Eq, Structural)]
pub struct KryCode {
    pub f1: i32,
    pub f2: i32,
    pub f3: i32,
}

/// The code of the default Fernus publisher distribution.
pub fn default_kry_code() -> (c: KryCode)
    ensures
        c == (KryCode { f1: 33, f2: 20, f3: 10 }),
{
    KryCode { f1: 33, f2: 20, f3: 10 }
}

/// The four end positions computed by the cipher fit in an `i32` (the
/// cipher cannot run on codes beyond that).
pub open spec fn kry_code_fits(c: KryCode) -> bool {
    &&& i32::MIN <= 3 * c.f1 <= i32::MAX
    &&& i32::MIN <= 3 * c.f2 <= i32::MAX
    &&& i32::MIN <= 3 * c.f3 <= i32::MAX
    &&& i32::MIN <= 11000 + 3 * c.f1 <= i32::MAX
    &&& i32::MIN <= 5500 + 3 * c.f3 <= i32::MAX
    &&& i32::MIN <= 1500 + 3 * c.f2 <= i32::MAX
    &&& i32::MIN <= 300 + 3 * c.f1 <= i32::MAX
}

/// `separate_bytes`: on the range from `s` (at least 0) to `e + 3 * n1`
/// (both cut to the length), subtract `n2` from every byte twice and reverse
/// the range.  A negative end, read as an unsigned size, is past the end.
pub open spec fn spec_separate(b: Seq<u8>, s: i32, e: i32, n1: i32, n2: i32) -> Seq<u8> {
    let e0 = ((e + n1 * 3) as i32) as usize;
    let end: int = if e0 < b.len() {
        e0 as int
    } else {
        b.len() as int
    };
    let s0 = (if s > 0 {
        s
    } else {
        0i32
    }) as usize;
    let start: int = if s0 < b.len() {
        s0 as int
    } else {
        b.len() as int
    };
    let k = n2 as u8;
    if start >= end {
        b
    } else {
        Seq::new(
            b.len(),
            |j: int|
                if start <= j < end {
                    b[start + end - 1 - j].wrapping_sub(k).wrapping_sub(k)
                } else {
                    b[j]
                },
        )
    }
}

/// Subtract `v` from the byte at `pos`, when there is one.
pub open spec fn spec_fix(b: Seq<u8>, pos: usize, v: u8) -> Seq<u8> {
    if pos < b.len() {
        b.update(pos as int, b[pos as int].wrapping_sub(v))
    } else {
        b
    }
}

/// The SWF cipher (decryption direction): four reversed ranges, then six
/// single-byte corrections.
pub open spec fn spec_kry_decrypt(b: Seq<u8>, c: KryCode) -> Seq<u8> {
    let b1 = spec_separate(b, 10000, 11000, c.f1, c.f2);
    let b2 = spec_separate(b1, 5000, 5500, c.f3, c.f1);
    let b3 = spec_separate(b2, 850, 1500, c.f2, c.f3);
    let b4 = spec_separate(b3, 0, 300, c.f1, c.f2);
    let b5 = spec_fix(b4, c.f3 as usize, c.f3 as u8);
    let b6 = spec_fix(b5, c.f2 as usize, c.f2 as u8);
    let b7 = spec_fix(b6, c.f1 as usize, c.f1 as u8);
    let b8 = spec_fix(b7, 2, c.f3 as u8);
    let b9 = spec_fix(b8, 1, c.f2 as u8);
    spec_fix(b9, 0, c.f1 as u8)
}

/// The Fernus SWF cipher.
pub struct KrySWFCrypto;

impl KrySWFCrypto {
    /// Decrypt SWF bytes in place.  All arithmetic on bytes wraps modulo
    /// 256; the length never changes.
    pub fn decrypt(bytes: &mut Vec<u8>, code: &KryCode) -> (r: Result<(), CryptoError>)
        requires
            kry_code_fits(*code),
        ensures
            r is Ok,
            final(bytes)@ == spec_kry_decrypt(old(bytes)@, *code),
            final(bytes)@.len() == old(bytes)@.len(),
    {
        Self::separate_bytes(bytes, 10000, 11000, code.f1, code.f2);
        Self::separate_bytes(bytes, 5000, 5500, code.f3, code.f1);
        Self::separate_bytes(bytes, 850, 1500, code.f2, code.f3);
        Self::separate_bytes(bytes, 0, 300, code.f1, code.f2);
        Self::fix_byte(bytes, code.f3 as usize, code.f3 as u8);
        Self::fix_byte(bytes, code.f2 as usize, code.f2 as u8);
        Self::fix_byte(bytes, code.f1 as usize, code.f1 as u8);
        Self::fix_byte(bytes, 2, code.f3 as u8);
        Self::fix_byte(bytes, 1, code.f2 as u8);
        Self::fix_byte(bytes, 0, code.f1 as u8);
        Ok(())
    }

    fn fix_byte(bytes: &mut Vec<u8>, pos: usize, v: u8)
        ensures
            final(bytes)@ == spec_fix(old(bytes)@, pos, v),
    {
        if pos < bytes.len() {
            let b = bytes[pos].wrapping_sub(v);
            bytes.set(pos, b);
        }
    }

    /// Subtract `n2` twice from every byte of a range and reverse the range
    /// (see [`spec_separate`]).
    pub fn separate_bytes(bytes: &mut Vec<u8>, s_index: i32, e_index: i32, n1: i32, n2: i32)
        requires
            i32::MIN <= n1 * 3 <= i32::MAX,
            i32::MIN <= e_index + n1 * 3 <= i32::MAX,
        ensures
            final(bytes)@ == spec_separate(old(bytes)@, s_index, e_index, n1, n2),
    {
        let e0 = (e_index + n1 * 3) as usize;
        let end = if e0 < bytes.len() {
            e0
        } else {
            bytes.len()
        };
        let s0 = (if s_index > 0 {
            s_index
        } else {
            0
        }) as usize;
        let start = if s0 < bytes.len() {
            s0
        } else {
            bytes.len()
        };
        if start >= end {
            return;
        }
        let k = n2 as u8;
        let seg = copy_range(bytes.as_slice(), start, end);
        let ghost old_b = bytes@;
        let mut j = start;
        while j < end
            invariant
                start <= j <= end <= old_b.len(),
                bytes@.len() == old_b.len(),
                seg@ == old_b.subrange(start as int, end as int),
                k == n2 as u8,
                forall|i: int|
                    start <= i < j ==> bytes@[i] == old_b[start + end - 1 - i].wrapping_sub(
                        k,
                    ).wrapping_sub(k),
                forall|i: int| 0 <= i < bytes@.len() && !(start <= i < j) ==> bytes@[i] == old_b[i],
            decreases end - j,
        {
            let v = seg[end - 1 - j].wrapping_sub(k).wrapping_sub(k);
            bytes.set(j, v);
            j = j + 1;
        }
        assert(bytes@ =~= spec_separate(old_b, s_index, e_index, n1, n2));
    }
}

// ---------------------------------------------------------------------------
// fernusCode
// ---------------------------------------------------------------------------

/// Characters with the Unicode `White_Space` property (those `str::trim`
/// removes).
pub open spec fn is_ws(c: char) -> bool {
    ||| ('\u{9}' <= c <= '\u{d}')
    ||| c == ' '
    ||| c == '\u{85}'
    ||| c == '\u{a0}'
    ||| c == '\u{1680}'
    ||| ('\u{2000}' <= c <= '\u{200a}')
    ||| c == '\u{2028}'
    ||| c == '\u{2029}'
    ||| c == '\u{202f}'
    ||| c == '\u{205f}'
    ||| c == '\u{3000}'
}

pub open spec fn trim_start(s: Seq<char>) -> Seq<char>
    decreases s.len(),
{
    if s.len() > 0 && is_ws(s[0]) {
        trim_start(s.drop_first())
    } else {
        s
    }
}

pub open spec fn trim_end(s: Seq<char>) -> Seq<char>
    decreases s.len(),
{
    if s.len() > 0 && is_ws(s.last()) {
        trim_end(s.drop_last())
    } else {
        s
    }
}

/// `str::trim`: white space removed at both ends.
pub open spec fn trim(s: Seq<char>) -> Seq<char> {
    trim_end(trim_start(s))
}

/// Value of a string of decimal digits.
pub open spec fn digits_value(s: Seq<char>) -> int
    decreases s.len(),
{
    if s.len() == 0 {
        0
    } else {
        10 * digits_value(s.drop_last()) + (s.last() as int - '0' as int)
    }
}

pub open spec fn all_digits(s: Seq<char>) -> bool {
    forall|i: int| 0 <= i < s.len() ==> '0' <= #[trigger] s[i] <= '9'
}

/// The digits after an optional `+` or `-` sign.
pub open spec fn unsigned_part(s: Seq<char>) -> Seq<char> {
    if s.len() > 0 && (s[0] == '-' || s[0] == '+') {
        s.drop_first()
    } else {
        s
    }
}

/// Value of an optional `+` or `-` sign followed by at least one decimal
/// digit (the form `from_str` accepts for signed integers).
pub open spec fn parse_int(s: Seq<char>) -> Option<int> {
    let digits = unsigned_part(s);
    if digits.len() == 0 || !all_digits(digits) {
        None
    } else if s.len() > 0 && s[0] == '-' {
        Some(-digits_value(digits))
    } else {
        Some(digits_value(digits))
    }
}

/// `i32::from_str`: [`parse_int`] with a value in the range of `i32`.
pub open spec fn parse_i32(s: Seq<char>) -> Option<i32> {
    match parse_int(s) {
        Some(v) => if i32::MIN <= v <= i32::MAX {
            Some(v as i32)
        } else {
            None
        },
        None => None,
    }
}

/// `i64::from_str`: [`parse_int`] with a value in the range of `i64`.
pub open spec fn parse_i64(s: Seq<char>) -> Option<i64> {
    match parse_int(s) {
        Some(v) => if i64::MIN <= v <= i64::MAX {
            Some(v as i64)
        } else {
            None
        },
        None => None,
    }
}

/// Pieces of `cur + s` between the occurrences of `sep`, where `cur` is the
/// piece read so far.
pub open spec fn split_from(s: Seq<char>, sep: char, cur: Seq<char>) -> Seq<Seq<char>>
    decreases s.len(),
{
    if s.len() == 0 {
        seq![cur]
    } else if s[0] == sep {
        seq![cur] + split_from(s.drop_first(), sep, Seq::empty())
    } else {
        split_from(s.drop_first(), sep, cur.push(s[0]))
    }
}

/// Pieces of `s` between the occurrences of `sep` (`str::split`).
pub open spec fn split_at_char(s: Seq<char>, sep: char) -> Seq<Seq<char>> {
    split_from(s, sep, Seq::empty())
}

/// Outcome of reading a `fernusCode`.
pub enum KryParse {
    Code(KryCode),
    Invalid,
    Overflow,
}

/// The three numbers of a `fernusCode` (`XxYxZ`, or `X_Y_Z` when it has no
/// `x`), each trimmed, plus the length of the `pkxkname` read as an `i32`.
pub open spec fn spec_parse_kry_code(s: Seq<char>, pkxkname_len: usize) -> KryParse {
    let sep = if s.contains('x') {
        'x'
    } else {
        '_'
    };
    if !s.contains('x') && !s.contains('_') {
        KryParse::Invalid
    } else {
        let parts = split_at_char(s, sep);
        if parts.len() != 3 {
            KryParse::Invalid
        } else {
            match (parse_i32(trim(parts[0])), parse_i32(trim(parts[1])), parse_i32(trim(parts[2]))) {
                (Some(a), Some(b), Some(c)) => {
                    let l = (pkxkname_len as i32) as int;
                    if a + l > i32::MAX || a + l < i32::MIN || b + l > i32::MAX || b + l < i32::MIN
                        || c + l > i32::MAX || c + l < i32::MIN {
                        KryParse::Overflow
                    } else {
                        KryParse::Code(
                            KryCode { f1: (a + l) as i32, f2: (b + l) as i32, f3: (c + l) as i32 },
                        )
                    }
                },
                _ => KryParse::Invalid,
            }
        }
    }
}

pub proof fn lemma_digits_value_mono(s: Seq<char>, k: int)
    requires
        all_digits(s),
        0 <= k <= s.len(),
    ensures
        digits_value(s.subrange(0, k)) <= digits_value(s),
        0 <= digits_value(s),
    decreases s.len(),
{
    if s.len() > 0 {
        let t = s.drop_last();
        assert(all_digits(t)) by {
            assert forall|i: int| 0 <= i < t.len() implies '0' <= #[trigger] t[i] <= '9' by {
                assert(t[i] == s[i]);
            }
        }
        assert('0' <= s.last() <= '9');
        if k == s.len() {
            assert(s.subrange(0, k) =~= s);
            lemma_digits_value_mono(t, 0);
        } else {
            assert(s.subrange(0, k) =~= t.subrange(0, k));
            lemma_digits_value_mono(t, k);
        }
    } else {
        assert(s.subrange(0, k) =~= s);
    }
}

/// [`parse_int`] on characters, for values of magnitude at most `bound`:
/// `None` when the text is not a number or its magnitude exceeds `bound`.
pub fn parse_int_bounded(s: &Vec<char>, bound: u64) -> (r: Option<i128>)
    requires
        9 <= bound <= 0x8000_0000_0000_0000u64,
    ensures
        r matches Some(v) ==> parse_int(s@) == Some(v as int) && -bound <= v <= bound,
        r is None ==> parse_int(s@) is None || (parse_int(s@) matches Some(v) && (v > bound || v
            < -bound)),
{
    let n = s.len();
    let mut i: usize = 0;
    let mut neg = false;
    if n > 0 && (s[0] == '-' || s[0] == '+') {
        neg = s[0] == '-';
        i = 1;
    }
    let ghost digits = s@.subrange(i as int, n as int);
    assert(digits =~= unsigned_part(s@));
    if i == n {
        return None;
    }
    let start = i;
    let mut acc: u64 = 0;
    while i < n
        invariant
            start <= i <= n == s@.len(),
            digits == s@.subrange(start as int, n as int),
            digits == unsigned_part(s@),
            neg == (s@.len() > 0 && s@[0] == '-'),
            digits.len() > 0,
            9 <= bound <= 0x8000_0000_0000_0000u64,
            acc == digits_value(s@.subrange(start as int, i as int)),
            acc <= bound,
            forall|j: int| start <= j < i ==> '0' <= #[trigger] s@[j] <= '9',
        decreases n - i,
    {
        let c = s[i];
        if !(c >= '0' && c <= '9') {
            assert(digits[i - start] == c);
            return None;
        }
        let d = (c as u32 - '0' as u32) as u64;
        proof {
            assert(s@.subrange(start as int, i + 1).drop_last() =~= s@.subrange(start as int, i as int));
        }
        if acc > (bound - d) / 10 {
            proof {
                let p = s@.subrange(start as int, i + 1);
                assert(digits_value(p) == 10 * acc + d);
                assert(10 * acc + d > bound) by (nonlinear_arith)
                    requires
                        acc > (bound - d) / 10,
                        d <= 9,
                        d <= bound,
                ;
                if all_digits(digits) {
                    assert(p =~= digits.subrange(0, i + 1 - start));
                    lemma_digits_value_mono(digits, i + 1 - start);
                }
            }
            return None;
        }
        assert(10 * acc + d <= bound) by (nonlinear_arith)
            requires
                acc <= (bound - d) / 10,
                d <= 9,
                d <= bound,
        ;
        acc = acc * 10 + d;
        i = i + 1;
    }
    assert(all_digits(digits)) by {
        assert forall|j: int| 0 <= j < digits.len() implies '0' <= #[trigger] digits[j] <= '9' by {
            assert(digits[j] == s@[start + j]);
        }
    }
    assert(s@.subrange(start as int, n as int) =~= digits);
    if neg {
        Some(-(acc as i128))
    } else {
        Some(acc as i128)
    }
}

/// `i32::from_str` on characters.
pub fn parse_i32_chars(s: &Vec<char>) -> (r: Option<i32>)
    ensures
        r == parse_i32(s@),
{
    match parse_int_bounded(s, 0x8000_0000) {
        Some(v) => if v >= i32::MIN as i128 && v <= i32::MAX as i128 {
            Some(v as i32)
        } else {
            None
        },
        None => None,
    }
}

/// `i64::from_str` on characters.
pub fn parse_i64_chars(s: &Vec<char>) -> (r: Option<i64>)
    ensures
        r == parse_i64(s@),
{
    match parse_int_bounded(s, 0x8000_0000_0000_0000) {
        Some(v) => if v >= i64::MIN as i128 && v <= i64::MAX as i128 {
            Some(v as i64)
        } else {
            None
        },
        None => None,
    }
}

pub proof fn lemma_trim_start(s: Seq<char>, k: int)
    requires
        0 <= k <= s.len(),
        forall|j: int| 0 <= j < k ==> is_ws(#[trigger] s[j]),
        k == s.len() || !is_ws(s[k]),
    ensures
        trim_start(s) == s.subrange(k, s.len() as int),
    decreases s.len(),
{
    if s.len() > 0 && is_ws(s[0]) {
        let t = s.drop_first();
        assert forall|j: int| 0 <= j < k - 1 implies is_ws(#[trigger] t[j]) by {
            assert(t[j] == s[j + 1]);
        }
        lemma_trim_start(t, k - 1);
        assert(t.subrange(k - 1, t.len() as int) =~= s.subrange(k, s.len() as int));
    } else {
        assert(s.subrange(k, s.len() as int) =~= s);
    }
}

pub proof fn lemma_trim_end(s: Seq<char>, k: int)
    requires
        0 <= k <= s.len(),
        forall|j: int| k <= j < s.len() ==> is_ws(#[trigger] s[j]),
        k == 0 || !is_ws(s[k - 1]),
    ensures
        trim_end(s) == s.subrange(0, k),
    decreases s.len(),
{
    if s.len() > 0 && is_ws(s.last()) {
        let t = s.drop_last();
        lemma_trim_end(t, k);
        assert(t.subrange(0, k) =~= s.subrange(0, k));
    } else {
        assert(s.subrange(0, k) =~= s);
    }
}

/// `str::trim` on characters.
pub fn trim_chars(s: &Vec<char>) -> (r: Vec<char>)
    ensures
        r@ == trim(s@),
{
    let n = s.len();
    let mut a: usize = 0;
    while a < n && is_ws_char(s[a])
        invariant
            a <= n == s@.len(),
            forall|j: int| 0 <= j < a ==> is_ws(#[trigger] s@[j]),
        decreases n - a,
    {
        a = a + 1;
    }
    proof {
        lemma_trim_start(s@, a as int);
    }
    let ghost t = s@.subrange(a as int, n as int);
    let mut b: usize = n;
    while b > a && is_ws_char(s[b - 1])
        invariant
            a <= b <= n == s@.len(),
            forall|j: int| b <= j < n ==> is_ws(#[trigger] s@[j]),
        decreases b - a,
    {
        b = b - 1;
    }
    proof {
        assert forall|j: int| b - a <= j < t.len() implies is_ws(#[trigger] t[j]) by {
            assert(t[j] == s@[a + j]);
        }
        if b > a {
            assert(t[b - a - 1] == s@[b - 1]);
        }
        lemma_trim_end(t, b - a);
        assert(t.subrange(0, b - a) =~= s@.subrange(a as int, b as int));
    }
    let mut out: Vec<char> = Vec::new();
    let mut i = a;
    while i < b
        invariant
            a <= i <= b <= n == s@.len(),
            out@ == s@.subrange(a as int, i as int),
        decreases b - i,
    {
        out.push(s[i]);
        i = i + 1;
        assert(out@ =~= s@.subrange(a as int, i as int));
    }
    out
}

/// Whether a character has the Unicode `White_Space` property.
pub fn is_ws_char(c: char) -> (r: bool)
    ensures
        r == is_ws(c),
{
    (c >= '\u{9}' && c <= '\u{d}') || c == ' ' || c == '\u{85}' || c == '\u{a0}' || c == '\u{1680}'
        || (c >= '\u{2000}' && c <= '\u{200a}') || c == '\u{2028}' || c == '\u{2029}' || c
        == '\u{202f}' || c == '\u{205f}' || c == '\u{3000}'
}

/// `str::split` on characters.
pub fn split_chars(s: &Vec<char>, sep: char) -> (r: Vec<Vec<char>>)
    ensures
        r@.len() == split_at_char(s@, sep).len(),
        forall|i: int| 0 <= i < r@.len() ==> (#[trigger] r@[i])@ == split_at_char(s@, sep)[i],
{
    let mut parts: Vec<Vec<char>> = Vec::new();
    let mut cur: Vec<char> = Vec::new();
    let ghost mut done: Seq<Seq<char>> = Seq::empty();
    let mut i: usize = 0;
    assert(s@.subrange(0, s@.len() as int) =~= s@);
    assert(done + split_from(s@, sep, cur@) =~= split_from(s@, sep, cur@));
    while i < s.len()
        invariant
            i <= s@.len(),
            parts@.len() == done.len(),
            forall|j: int| 0 <= j < done.len() ==> (#[trigger] parts@[j])@ == done[j],
            split_at_char(s@, sep) == done + split_from(s@.subrange(i as int, s@.len() as int), sep, cur@),
        decreases s.len() - i,
    {
        let ghost rest = s@.subrange(i as int, s@.len() as int);
        assert(rest.drop_first() =~= s@.subrange(i + 1, s@.len() as int));
        assert(rest[0] == s@[i as int]);
        if s[i] == sep {
            let ghost c = cur@;
            proof {
                assert(done + (seq![c] + split_from(rest.drop_first(), sep, Seq::empty())) =~= done.push(c)
                    + split_from(rest.drop_first(), sep, Seq::empty()));
                done = done.push(c);
            }
            let mut fresh: Vec<char> = Vec::new();
            std::mem::swap(&mut fresh, &mut cur);
            parts.push(fresh);
        } else {
            cur.push(s[i]);
        }
        i = i + 1;
    }
    assert(s@.subrange(i as int, s@.len() as int) =~= Seq::<char>::empty());
    let ghost c = cur@;
    parts.push(cur);
    proof {
        assert(done + seq![c] =~= done.push(c));
        done = done.push(c);
    }
    parts
}

/// Whether `c` occurs in `s`.
pub fn contains_char(s: &Vec<char>, c: char) -> (r: bool)
    ensures
        r == s@.contains(c),
{
    let mut i: usize = 0;
    while i < s.len()
        invariant
            i <= s@.len(),
            forall|j: int| 0 <= j < i ==> s@[j] != c,
        decreases s.len() - i,
    {
        if s[i] == c {
            return true;
        }
        i = i + 1;
    }
    false
}

/// Read a `fernusCode` (`XxYxZ`, or `X_Y_Z` when it has no `x`) and add
/// the length of the `pkxkname` to each of its three numbers.
pub fn parse_kry_code(fernus_code_decrypted: &str, pkxkname_len: usize) -> (r: Result<KryCode, CryptoError>)
    requires
        !(spec_parse_kry_code(fernus_code_decrypted@, pkxkname_len) is Overflow),
    ensures
        match spec_parse_kry_code(fernus_code_decrypted@, pkxkname_len) {
            KryParse::Code(c) => r == Ok::<KryCode, CryptoError>(c),
            KryParse::Invalid => r == Err::<KryCode, CryptoError>(CryptoError::InvalidFernusCode),
            KryParse::Overflow => false,
        },
{
    let cs = str_chars(fernus_code_decrypted);
    let has_x = contains_char(&cs, 'x');
    let has_u = contains_char(&cs, '_');
    if !has_x && !has_u {
        return Err(CryptoError::InvalidFernusCode);
    }
    let sep = if has_x {
        'x'
    } else {
        '_'
    };
    let parts = split_chars(&cs, sep);
    if parts.len() != 3 {
        return Err(CryptoError::InvalidFernusCode);
    }
    let a = match parse_i32_chars(&trim_chars(&parts[0])) {
        Some(v) => v,
        None => return Err(CryptoError::InvalidFernusCode),
    };
    let b = match parse_i32_chars(&trim_chars(&parts[1])) {
        Some(v) => v,
        None => return Err(CryptoError::InvalidFernusCode),
    };
    let c = match parse_i32_chars(&trim_chars(&parts[2])) {
        Some(v) => v,
        None => return Err(CryptoError::InvalidFernusCode),
    };
    let pkxk = pkxkname_len as i32;
    Ok(KryCode { f1: a + pkxk, f2: b + pkxk, f3: c + pkxk })
}

/// [`parse_kry_code`] on every input: `None` where the sums would not fit
/// in an `i32`.
pub fn parse_kry_code_checked(fernus_code_decrypted: &str, pkxkname_len: usize) -> (r: Option<
    Result<KryCode, CryptoError>,
>)
    ensures
        match spec_parse_kry_code(fernus_code_decrypted@, pkxkname_len) {
            KryParse::Code(c) => r == Some(Ok::<KryCode, CryptoError>(c)),
            KryParse::Invalid => r == Some(Err::<KryCode, CryptoError>(CryptoError::InvalidFernusCode)),
            KryParse::Overflow => r is None,
        },
{
    let cs = str_chars(fernus_code_decrypted);
    let has_x = contains_char(&cs, 'x');
    let has_u = contains_char(&cs, '_');
    if !has_x && !has_u {
        return Some(Err(CryptoError::InvalidFernusCode));
    }
    let sep = if has_x {
        'x'
    } else {
        '_'
    };
    let parts = split_chars(&cs, sep);
    if parts.len() != 3 {
        return Some(Err(CryptoError::InvalidFernusCode));
    }
    let a = parse_i32_chars(&trim_chars(&parts[0]));
    let b = parse_i32_chars(&trim_chars(&parts[1]));
    let c = parse_i32_chars(&trim_chars(&parts[2]));
    match (a, b, c) {
        (Some(a), Some(b), Some(c)) => {
            let l = (pkxkname_len as i32) as i64;
            let (x, y, z) = (a as i64 + l, b as i64 + l, c as i64 + l);
            if x > i32::MAX as i64 || x < i32::MIN as i64 || y > i32::MAX as i64 || y < i32::MIN as i64
                || z > i32::MAX as i64 || z < i32::MIN as i64 {
                None
            } else {
                Some(Ok(KryCode { f1: x as i32, f2: y as i32, f3: z as i32 }))
            }
        },
        _ => Some(Err(CryptoError::InvalidFernusCode)),
    }
}

/// The length of the `pkxkname` is added to each of the three numbers: the
/// code read with a length `n` is the code read with length 0, shifted by
/// `n` (when both fit).
pub proof fn law_pkxkname_length_is_added(s: Seq<char>, n: usize)
    requires
        n <= i32::MAX,
    ensures
        spec_parse_kry_code(s, n) matches KryParse::Code(c) ==> spec_parse_kry_code(s, 0) matches KryParse::Code(c0) && c.f1 == c0.f1 + n && c.f2 == c0.f2 + n && c.f3 == c0.f3 + n,
        spec_parse_kry_code(s, n) is Invalid <==> spec_parse_kry_code(s, 0) is Invalid,
{
    assert(((n as i32) as int) == n as int);
    assert(((0usize as i32) as int) == 0);
}

/// The encryption counterpart of [`spec_separate`]: the same range
/// reversed, `n2` added to every byte twice.
pub open spec fn spec_unseparate(b: Seq<u8>, s: i32, e: i32, n1: i32, n2: i32) -> Seq<u8> {
    let e0 = ((e + n1 * 3) as i32) as usize;
    let end: int = if e0 < b.len() {
        e0 as int
    } else {
        b.len() as int
    };
    let s0 = (if s > 0 {
        s
    } else {
        0i32
    }) as usize;
    let start: int = if s0 < b.len() {
        s0 as int
    } else {
        b.len() as int
    };
    let k = n2 as u8;
    if start >= end {
        b
    } else {
        Seq::new(
            b.len(),
            |j: int|
                if start <= j < end {
                    b[start + end - 1 - j].wrapping_add(k).wrapping_add(k)
                } else {
                    b[j]
                },
        )
    }
}

/// Add `v` to the byte at `pos`, when there is one.
pub open spec fn spec_unfix(b: Seq<u8>, pos: usize, v: u8) -> Seq<u8> {
    if pos < b.len() {
        b.update(pos as int, b[pos as int].wrapping_add(v))
    } else {
        b
    }
}

/// The Fernus SWF encryption that the cipher undoes: the six byte
/// corrections added back in reverse order, then the four ranges reversed
/// with their amounts added, last range first.
pub open spec fn spec_kry_encrypt(x: Seq<u8>, c: KryCode) -> Seq<u8> {
    let e1 = spec_unfix(x, 0, c.f1 as u8);
    let e2 = spec_unfix(e1, 1, c.f2 as u8);
    let e3 = spec_unfix(e2, 2, c.f3 as u8);
    let e4 = spec_unfix(e3, c.f1 as usize, c.f1 as u8);
    let e5 = spec_unfix(e4, c.f2 as usize, c.f2 as u8);
    let e6 = spec_unfix(e5, c.f3 as usize, c.f3 as u8);
    let e7 = spec_unseparate(e6, 0, 300, c.f1, c.f2);
    let e8 = spec_unseparate(e7, 850, 1500, c.f2, c.f3);
    let e9 = spec_unseparate(e8, 5000, 5500, c.f3, c.f1);
    spec_unseparate(e9, 10000, 11000, c.f1, c.f2)
}

proof fn lemma_u8_add_sub(x: u8, k: u8)
    ensures
        x.wrapping_add(k).wrapping_add(k).wrapping_sub(k).wrapping_sub(k) == x,
        x.wrapping_add(k).wrapping_sub(k) == x,
{
}

proof fn lemma_separate_undoes(b: Seq<u8>, s: i32, e: i32, n1: i32, n2: i32)
    ensures
        spec_unseparate(b, s, e, n1, n2).len() == b.len(),
        spec_separate(spec_unseparate(b, s, e, n1, n2), s, e, n1, n2) == b,
{
    let u = spec_unseparate(b, s, e, n1, n2);
    let r = spec_separate(u, s, e, n1, n2);
    let k = n2 as u8;
    assert forall|j: int| 0 <= j < b.len() implies #[trigger] r[j] == b[j] by {
        lemma_u8_add_sub(b[j], k);
    }
    assert(r =~= b);
}

proof fn lemma_fix_undoes(b: Seq<u8>, pos: usize, v: u8)
    ensures
        spec_unfix(b, pos, v).len() == b.len(),
        spec_fix(spec_unfix(b, pos, v), pos, v) == b,
{
    if pos < b.len() {
        lemma_u8_add_sub(b[pos as int], v);
        assert(spec_fix(spec_unfix(b, pos, v), pos, v) =~= b);
    }
}

/// The cipher inverts the Fernus SWF encryption: decrypting an encrypted
/// payload gives it back, for every payload (of any length, so every one
/// of the four ranges is checked) and every code.
pub proof fn law_kry_decrypt_inverts_encrypt(x: Seq<u8>, c: KryCode)
    ensures
        spec_kry_decrypt(spec_kry_encrypt(x, c), c) == x,
        spec_kry_encrypt(x, c).len() == x.len(),
{
    let e1 = spec_unfix(x, 0, c.f1 as u8);
    let e2 = spec_unfix(e1, 1, c.f2 as u8);
    let e3 = spec_unfix(e2, 2, c.f3 as u8);
    let e4 = spec_unfix(e3, c.f1 as usize, c.f1 as u8);
    let e5 = spec_unfix(e4, c.f2 as usize, c.f2 as u8);
    let e6 = spec_unfix(e5, c.f3 as usize, c.f3 as u8);
    let e7 = spec_unseparate(e6, 0, 300, c.f1, c.f2);
    let e8 = spec_unseparate(e7, 850, 1500, c.f2, c.f3);
    let e9 = spec_unseparate(e8, 5000, 5500, c.f3, c.f1);
    let e10 = spec_unseparate(e9, 10000, 11000, c.f1, c.f2);
    lemma_fix_undoes(x, 0, c.f1 as u8);
    lemma_fix_undoes(e1, 1, c.f2 as u8);
    lemma_fix_undoes(e2, 2, c.f3 as u8);
    lemma_fix_undoes(e3, c.f1 as usize, c.f1 as u8);
    lemma_fix_undoes(e4, c.f2 as usize, c.f2 as u8);
    lemma_fix_undoes(e5, c.f3 as usize, c.f3 as u8);
    lemma_separate_undoes(e6, 0, 300, c.f1, c.f2);
    lemma_separate_undoes(e7, 850, 1500, c.f2, c.f3);
    lemma_separate_undoes(e8, 5000, 5500, c.f3, c.f1);
    lemma_separate_undoes(e9, 10000, 11000, c.f1, c.f2);
}

} // verus!
