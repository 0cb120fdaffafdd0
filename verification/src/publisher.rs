//! The older publisher-file decryptor: `fd2` on bytes, Blowfish-ECB over
//! zero-padded blocks, and a length-only PKCS#5 unpadding.
use vstd::prelude::*;
use vstd::utf8::{decode_utf8, encode_utf8, valid_utf8};
use crate::bytes::{copy_range, str_chars, string_push};
use crate::kk::{base64_decode, base64_standard_decode, blowfish_decrypt_blocks, blowfish_ecb, spec_apply_xor, string_from_utf8};

verus! {

/// `data` followed by zero bytes up to a multiple of 8.
pub open spec fn zero_padded_blocks(data: Seq<u8>) -> Seq<u8> {
    data + Seq::new(((8 - data.len() % 8) % 8) as nat, |i: int| 0u8)
}

/// The decrypted text of a publisher file; `None` when the input is not
/// UTF-8, its reversal is not Base64, the key is
/// empty (with data) or not a Blowfish key length (4..=56 bytes), the
/// plain text is empty or shorter than its last byte, or the result is
/// not UTF-8.
pub open spec fn spec_decrypt_publisher(input: Seq<u8>, key: Seq<u8>) -> Option<Seq<char>> {
    if !valid_utf8(input) {
        None
    } else {
        match base64_standard_decode(encode_utf8(decode_utf8(input).reverse())) {
            None => None,
            Some(d) => if key.len() == 0 && d.len() > 0 {
                None
            } else if !(4 <= key.len() <= 56) {
                None
            } else {
                let plain = blowfish_ecb(key, zero_padded_blocks(spec_apply_xor(d, key)));
                if plain.len() == 0 || plain.last() as int > plain.len() {
                    None
                } else {
                    let text = plain.subrange(0, plain.len() - plain.last() as int);
                    if valid_utf8(text) {
                        Some(decode_utf8(text))
                    } else {
                        None
                    }
                }
            },
        }
    }
}

fn publisher_core(input: &[u8], key: &str) -> (r: Option<String>)
    ensures
        match spec_decrypt_publisher(input@, encode_utf8(key@)) {
            None => r is None,
            Some(t) => r matches Some(s) && s@ == t,
        },
{
    let text = match string_from_utf8(copy_range(input, 0, input.len())) {
        Some(t) => t,
        None => {
            assert(input@.subrange(0, input@.len() as int) =~= input@);
            return None;
        },
    };
    assert(input@.subrange(0, input@.len() as int) =~= input@);
    let cs = str_chars(text.as_str());
    let mut rev = String::new();
    let mut i: usize = cs.len();
    while i > 0
        invariant
            i <= cs@.len(),
            rev@ == cs@.subrange(i as int, cs@.len() as int).reverse(),
        decreases i,
    {
        i = i - 1;
        string_push(&mut rev, cs[i]);
        assert(cs@.subrange(i as int, cs@.len() as int).reverse() =~= cs@.subrange(i + 1, cs@.len() as int).reverse().push(
            cs@[i as int],
        ));
    }
    assert(cs@.subrange(0, cs@.len() as int) =~= cs@);
    let decoded = match base64_decode(rev.as_str().as_bytes()) {
        Some(d) => d,
        None => return None,
    };
    let kb = key.as_bytes();
    if kb.len() == 0 && decoded.len() > 0 {
        return None;
    }
    if kb.len() < 4 || kb.len() > 56 {
        return None;
    }
    let mut buf = crate::kk::KK::apply_xor(decoded.as_slice(), key);
    let ghost x = buf@;
    let pad = (8 - buf.len() % 8) % 8;
    let mut k: usize = 0;
    while k < pad
        invariant
            k <= pad,
            buf@ == x + Seq::new(k as nat, |i: int| 0u8),
        decreases pad - k,
    {
        buf.push(0);
        k = k + 1;
        assert(buf@ =~= x + Seq::new(k as nat, |i: int| 0u8));
    }
    assert(buf@ =~= zero_padded_blocks(x));
    assert(buf@.len() % 8 == 0);
    let plain = match blowfish_decrypt_blocks(kb, buf.as_slice()) {
        Some(p) => p,
        None => return None,
    };
    assert(plain@ =~= blowfish_ecb(kb@, buf@));
    if plain.len() == 0 {
        return None;
    }
    let pad_len = plain[plain.len() - 1] as usize;
    if pad_len > plain.len() {
        return None;
    }
    let out = copy_range(plain.as_slice(), 0, plain.len() - pad_len);
    string_from_utf8(out)
}

/// Decrypt a publisher file with `key` into its text.
pub fn decrypt_publisher(input: Vec<u8>, key: &str) -> (r: String)
    requires
        spec_decrypt_publisher(input@, encode_utf8(key@)) is Some,
    ensures
        spec_decrypt_publisher(input@, encode_utf8(key@)) == Some(r@),
{
    match publisher_core(input.as_slice(), key) {
        Some(s) => s,
        None => String::new(),
    }
}

/// [`decrypt_publisher`] on any input: `None` on the inputs
/// [`spec_decrypt_publisher`] gives no text for.
pub fn decrypt_publisher_checked(input: Vec<u8>, key: &str) -> (r: Option<String>)
    ensures
        match spec_decrypt_publisher(input@, encode_utf8(key@)) {
            None => r is None,
            Some(t) => r matches Some(s) && s@ == t,
        },
{
    publisher_core(input.as_slice(), key)
}

} // verus!
