//! Fernus runtime assets: the publisher configuration, the bundles of
//! payload files found next to a projector, and their decryption.
use vstd::prelude::*;
use vstd::utf8::encode_utf8;
use std::path::PathBuf;
use crate::kk::{spec_fd1, text_result, CryptoError, KK};
use crate::kry::{
    default_kry_code, kry_code_fits, parse_kry_code, parse_kry_code_checked, spec_kry_decrypt, spec_parse_kry_code, trim,
    trim_chars, KryCode, KryParse, KrySWFCrypto,
};
use crate::swf::{fws_result_is, spec_to_fws, to_fws, SwfError};
use crate::bytes::str_chars;
use crate::pipeline::string_of_chars;

verus! {

/// The publisher configuration (`publisher.kxk` JSON): the fields the
/// converter reads.
#[derive(Debug, Clone)]
pub struct PublisherConfig {
    pub pkxkname: Option<String>,
    pub fernus_code: Option<String>,
}

/// The `KryCode` of a configuration: its `fernus_code` read with the
/// length in bytes of its `pkxkname` (`fernus` when absent); the default
/// code when the code is absent or malformed.
pub open spec fn spec_config_code(pkxkname: Option<Seq<char>>, fernus_code: Option<Seq<char>>) -> KryParse {
    let pk = match pkxkname {
        Some(p) => p,
        None => "fernus"@,
    };
    match fernus_code {
        None => KryParse::Code(KryCode { f1: 33, f2: 20, f3: 10 }),
        Some(code) => match spec_parse_kry_code(code, encode_utf8(pk).len() as usize) {
            KryParse::Code(c) => KryParse::Code(c),
            KryParse::Invalid => KryParse::Code(KryCode { f1: 33, f2: 20, f3: 10 }),
            KryParse::Overflow => KryParse::Overflow,
        },
    }
}

pub open spec fn opt_view(o: Option<String>) -> Option<Seq<char>> {
    match o {
        Some(s) => Some(s@),
        None => None,
    }
}

impl PublisherConfig {
    pub open spec fn code_spec(&self) -> KryParse {
        spec_config_code(opt_view(self.pkxkname), opt_view(self.fernus_code))
    }

    /// The `KryCode` this configuration describes.
    pub fn kry_code(&self) -> (c: KryCode)
        requires
            !(self.code_spec() is Overflow),
        ensures
            self.code_spec() == KryParse::Code(c),
    {
        let pk_len: usize = match &self.pkxkname {
            Some(p) => p.as_str().as_bytes().len(),
            None => {
                let f = "fernus";
                f.as_bytes().len()
            },
        };
        proof {
            let pk = match opt_view(self.pkxkname) {
                Some(p) => p,
                None => "fernus"@,
            };
            assert(pk_len == encode_utf8(pk).len());
        }
        match &self.fernus_code {
            Some(code) => match parse_kry_code(code.as_str(), pk_len) {
                Ok(c) => c,
                Err(_) => default_kry_code(),
            },
            None => default_kry_code(),
        }
    }
}

impl PublisherConfig {
    /// [`PublisherConfig::kry_code`] on any configuration: `None` where a
    /// number of the code plus the `pkxkname` length leaves the `i32` range.
    pub fn kry_code_checked(&self) -> (c: Option<KryCode>)
        ensures
            match self.code_spec() {
                KryParse::Code(k) => c == Some(k),
                _ => c is None,
            },
    {
        let pk_len: usize = match &self.pkxkname {
            Some(p) => p.as_str().as_bytes().len(),
            None => {
                let f = "fernus";
                f.as_bytes().len()
            },
        };
        proof {
            let pk = match opt_view(self.pkxkname) {
                Some(p) => p,
                None => "fernus"@,
            };
            assert(pk_len == encode_utf8(pk).len());
        }
        match &self.fernus_code {
            Some(code) => match parse_kry_code_checked(code.as_str(), pk_len) {
                Some(Ok(c)) => Some(c),
                Some(Err(_)) => Some(default_kry_code()),
                None => None,
            },
            None => Some(default_kry_code()),
        }
    }
}

/// The payload files of a book folder, by their well-known names.
#[derive(Debug)]
pub struct AssetBundle {
    pub root: PathBuf,
    pub sysd: Option<PathBuf>,
    pub sysb: Option<PathBuf>,
    pub sysm: Option<PathBuf>,
    pub publisher: Option<PathBuf>,
}

impl AssetBundle {
    /// Whether `sysb.dll` (the page content) is present.
    pub fn has_pages(&self) -> (r: bool)
        ensures
            r == self.sysb is Some,
    {
        self.sysb.is_some()
    }
}

/// Fernus assets found next to a projector executable.
#[derive(Debug)]
pub struct FernusAssets {
    pub root: PathBuf,
    pub publisher: Option<PathBuf>,
    pub sysd: Option<PathBuf>,
    pub sysb: Option<PathBuf>,
    pub sysm: Option<PathBuf>,
}

impl FernusAssets {
    /// Whether `sysb.dll` (the page content) is present.
    pub fn has_pages(&self) -> (r: bool)
        ensures
            r == self.sysb is Some,
    {
        self.sysb.is_some()
    }
}

/// The bytes of a page asset, decrypted with the SWF cipher and normalised
/// to `FWS`.
pub fn decrypt_pages(bytes: Vec<u8>, code: &KryCode) -> (r: Result<Vec<u8>, SwfError>)
    requires
        kry_code_fits(*code),
    ensures
        fws_result_is(r, spec_to_fws(spec_kry_decrypt(bytes@, *code)), bytes@.len()),
{
    let mut bytes = bytes;
    let _ = KrySWFCrypto::decrypt(&mut bytes, code);
    to_fws(bytes.as_slice())
}

/// The text of an encrypted configuration file (`sysd.dll`,
/// `publisher.kxk`): `fd1` of the trimmed text with `publisher_key`.
pub fn decrypt_sysd(raw: &str, publisher_key: &str) -> (r: Result<String, CryptoError>)
    ensures
        text_result(r, spec_fd1(encode_utf8(trim(raw@)), encode_utf8(publisher_key@), true)),
{
    let cs = str_chars(raw);
    let t = trim_chars(&cs);
    let text = string_of_chars(&t);
    KK::fd1(text.as_str(), publisher_key, true)
}

} // verus!
