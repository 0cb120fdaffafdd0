//! Fernus Z-Kitap unpacking and decryption core.
//!
//! The modules below hold the byte-level logic of the converter: the aPLib
//! decompressor and the Enigma Virtual Box container reader, the scanner
//! for SWF files embedded in a projector, the Fernus string and SWF
//! ciphers, the `.frns` book format, the v3 (Flutter) key derivation, the
//! decisions of the conversion pipeline, and the SWF, JPEG and overlay
//! helpers of the page output.
pub mod aplib;
pub mod bytes;
pub mod pe;
pub mod records;
pub mod enigma;
pub mod kk;
pub mod kry;
pub mod v3;
pub mod swf;
pub mod scanner;
pub mod pdf;
pub mod frns;
pub mod pipeline;
pub mod assets;
pub mod overlay;
pub mod crypto;
pub mod publisher;
pub mod cli;
pub mod payloads;
