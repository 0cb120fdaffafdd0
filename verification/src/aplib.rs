//! aPLib decompression (the LZ77 variant used by Enigma Virtual Box).
use vstd::prelude::*;
use crate::bytes::{read_u32_le, slice_range, spec_u32_le};

verus! {

/// Errors of the aPLib decoder.
#[derive(Debug, Clone, Copy, PartialEq, Eq, Structural)]
pub enum AplibError {
    UnexpectedEof,
    InvalidOffset,
    InvalidHeader,
    PackedCrcMismatch,
    OriginalSizeMismatch,
    OriginalCrcMismatch,
}

/// Text of an [`AplibError`].
pub open spec fn aplib_message(e: AplibError) -> &'static str {
    match e {
        AplibError::UnexpectedEof => "unexpected end of aPLib stream",
        AplibError::InvalidOffset => "invalid offset in aPLib stream",
        AplibError::InvalidHeader => "invalid AP32 header",
        AplibError::PackedCrcMismatch => "packed data CRC mismatch",
        AplibError::OriginalSizeMismatch => "depacked size does not match the AP32 header",
        AplibError::OriginalCrcMismatch => "depacked data CRC mismatch",
    }
}

impl AplibError {
    /// Human readable description of the error.
    pub fn message(&self) -> (r: &'static str)
        ensures
            r == aplib_message(*self),
    {
        match self {
            AplibError::UnexpectedEof => "unexpected end of aPLib stream",
            AplibError::InvalidOffset => "invalid offset in aPLib stream",
            AplibError::InvalidHeader => "invalid AP32 header",
            AplibError::PackedCrcMismatch => "packed data CRC mismatch",
            AplibError::OriginalSizeMismatch => "depacked size does not match the AP32 header",
            AplibError::OriginalCrcMismatch => "depacked data CRC mismatch",
        }
    }
}

/// Outcome of decoding a stream in the model: a value, an error, or an
/// arithmetic overflow of a match length (a stream that cannot be decoded
/// at all on this machine).
pub enum Outcome<T> {
    Done(T),
    Fail(AplibError),
    Overflow,
}

/// Position of the bit reader: byte position, current tag byte and the
/// number of bits left in it.
pub struct Bits {
    pub pos: int,
    pub tag: u8,
    pub cnt: int,
}

pub open spec fn bits_ok(src: Seq<u8>, b: Bits) -> bool {
    0 <= b.pos <= src.len() && 0 <= b.cnt <= 7
}

/// Number of bits that can still be read.
pub open spec fn bits_left(src: Seq<u8>, b: Bits) -> int {
    8 * (src.len() - b.pos) + b.cnt
}

/// Read one raw byte from the stream.
pub open spec fn spec_read_byte(src: Seq<u8>, b: Bits) -> Result<(Bits, u8), AplibError> {
    if b.pos >= src.len() || b.pos < 0 {
        Err(AplibError::UnexpectedEof)
    } else {
        Ok((Bits { pos: b.pos + 1, tag: b.tag, cnt: b.cnt }, src[b.pos]))
    }
}

/// Read one bit, most significant bit of the tag byte first; a new tag byte
/// is fetched when the current one is exhausted.
pub open spec fn spec_getbit(src: Seq<u8>, b: Bits) -> Result<(Bits, u8), AplibError> {
    if b.cnt - 1 < 0 {
        if b.pos >= src.len() || b.pos < 0 {
            Err(AplibError::UnexpectedEof)
        } else {
            let t = src[b.pos];
            Ok((Bits { pos: b.pos + 1, tag: (t << 1u8) as u8, cnt: 7 }, (t >> 7u8) & 1u8))
        }
    } else {
        Ok((Bits { pos: b.pos, tag: (b.tag << 1u8) as u8, cnt: b.cnt - 1 }, (b.tag >> 7u8) & 1u8))
    }
}

/// Elias gamma code, continuing from the accumulator `acc`.
pub open spec fn spec_gamma_from(src: Seq<u8>, b: Bits, acc: usize) -> Result<(Bits, usize), AplibError>
    decreases bits_left(src, b),
{
    if !bits_ok(src, b) {
        Err(AplibError::UnexpectedEof)
    } else {
        match spec_getbit(src, b) {
            Err(e) => Err(e),
            Ok((b1, bit)) => {
                let acc2 = (acc << 1usize) | (bit as usize);
                match spec_getbit(src, b1) {
                    Err(e) => Err(e),
                    Ok((b2, more)) => {
                        if more == 0 {
                            Ok((b2, acc2))
                        } else {
                            proof {
                                lemma_getbit(src, b);
                                lemma_getbit(src, b1);
                            }
                            spec_gamma_from(src, b2, acc2)
                        }
                    },
                }
            },
        }
    }
}

pub open spec fn spec_gamma(src: Seq<u8>, b: Bits) -> Result<(Bits, usize), AplibError> {
    spec_gamma_from(src, b, 1)
}

/// Read `n` bits as an unsigned number, most significant bit first.
pub open spec fn spec_getbits(src: Seq<u8>, b: Bits, n: nat, acc: usize) -> Result<(Bits, usize), AplibError>
    decreases n,
{
    if n == 0 {
        Ok((b, acc))
    } else {
        match spec_getbit(src, b) {
            Err(e) => Err(e),
            Ok((b1, bit)) => spec_getbits(src, b1, (n - 1) as nat, (acc << 1usize) | (bit as usize)),
        }
    }
}

/// Copy `n` bytes from `offs` bytes back in the output, one at a time (the
/// source may overlap the bytes being produced).
pub open spec fn spec_copy(dst: Seq<u8>, offs: usize, n: nat) -> Option<Seq<u8>>
    decreases n,
{
    if n == 0 {
        Some(dst)
    } else if 1 <= offs <= dst.len() {
        spec_copy(dst.push(dst[dst.len() - offs]), offs, (n - 1) as nat)
    } else {
        None
    }
}

/// Decoder state between two tokens.
pub struct Dk {
    pub bits: Bits,
    pub dst: Seq<u8>,
    pub r0: usize,
    pub lwm: bool,
}

/// Extra length of a long match, by the size of its offset.
pub open spec fn long_match_extra(offs: usize) -> int {
    (if offs >= 32000 { 1int } else { 0int }) + (if offs >= 1280 { 1int } else { 0int }) + (if offs < 128 {
        2int
    } else {
        0int
    })
}

pub open spec fn copy_outcome(c: Option<Seq<u8>>, bits: Bits, r0: usize) -> Outcome<(Dk, bool)> {
    match c {
        None => Outcome::Fail(AplibError::InvalidOffset),
        Some(d) => Outcome::Done((Dk { bits, dst: d, r0, lwm: true }, false)),
    }
}

/// One token of the stream: a literal, a short match, a one-byte match
/// (or the end marker) or a long match.  The flag tells whether the end
/// marker was read.
pub open spec fn spec_step(src: Seq<u8>, s: Dk) -> Outcome<(Dk, bool)> {
    match spec_getbit(src, s.bits) {
        Err(e) => Outcome::Fail(e),
        Ok((b1, x)) => if x == 0 {
            match spec_read_byte(src, b1) {
                Err(e) => Outcome::Fail(e),
                Ok((b2, lit)) => Outcome::Done(
                    (Dk { bits: b2, dst: s.dst.push(lit), r0: s.r0, lwm: false }, false),
                ),
            }
        } else {
            match spec_getbit(src, b1) {
                Err(e) => Outcome::Fail(e),
                Ok((b2, y)) => if y != 0 {
                    match spec_getbit(src, b2) {
                        Err(e) => Outcome::Fail(e),
                        Ok((b3, z)) => if z != 0 {
                            match spec_getbits(src, b3, 4, 0) {
                                Err(e) => Outcome::Fail(e),
                                Ok((b4, offs)) => {
                                    let d = if offs != 0 {
                                        if 1 <= offs <= s.dst.len() {
                                            s.dst.push(s.dst[s.dst.len() - offs])
                                        } else {
                                            s.dst
                                        }
                                    } else {
                                        s.dst.push(0u8)
                                    };
                                    Outcome::Done((Dk { bits: b4, dst: d, r0: s.r0, lwm: false }, false))
                                },
                            }
                        } else {
                            match spec_read_byte(src, b3) {
                                Err(e) => Outcome::Fail(e),
                                Ok((b4, byte)) => {
                                    let offs = (byte >> 1u8) as usize;
                                    let length = 2 + (byte & 1u8);
                                    if offs != 0 {
                                        copy_outcome(spec_copy(s.dst, offs, length as nat), b4, offs)
                                    } else {
                                        Outcome::Done(
                                            (Dk { bits: b4, dst: s.dst, r0: 0, lwm: true }, true),
                                        )
                                    }
                                },
                            }
                        },
                    }
                } else {
                    match spec_gamma(src, b2) {
                        Err(e) => Outcome::Fail(e),
                        Ok((b3, g)) => if !s.lwm && g == 2 {
                            match spec_gamma(src, b3) {
                                Err(e) => Outcome::Fail(e),
                                Ok((b4, length)) => copy_outcome(
                                    spec_copy(s.dst, s.r0, length as nat),
                                    b4,
                                    s.r0,
                                ),
                            }
                        } else {
                            let o1: usize = if !s.lwm {
                                g.wrapping_sub(3)
                            } else {
                                g.wrapping_sub(2)
                            };
                            match spec_read_byte(src, b3) {
                                Err(e) => Outcome::Fail(e),
                                Ok((b4, byte)) => {
                                    let offs = (o1 << 8usize) | (byte as usize);
                                    match spec_gamma(src, b4) {
                                        Err(e) => Outcome::Fail(e),
                                        Ok((b5, len0)) => if len0 + long_match_extra(offs) > usize::MAX {
                                            Outcome::Overflow
                                        } else {
                                            copy_outcome(
                                                spec_copy(
                                                    s.dst,
                                                    offs,
                                                    (len0 + long_match_extra(offs)) as nat,
                                                ),
                                                b5,
                                                offs,
                                            )
                                        },
                                    }
                                },
                            }
                        },
                    }
                },
            }
        },
    }
}

/// The token loop, run until the end marker.
pub open spec fn spec_run(src: Seq<u8>, s: Dk) -> Outcome<Seq<u8>>
    decreases bits_left(src, s.bits),
{
    if !bits_ok(src, s.bits) {
        Outcome::Fail(AplibError::UnexpectedEof)
    } else {
        match spec_step(src, s) {
            Outcome::Fail(e) => Outcome::Fail(e),
            Outcome::Overflow => Outcome::Overflow,
            Outcome::Done((s2, done)) => if done {
                Outcome::Done(s2.dst)
            } else {
                proof {
                    lemma_step(src, s);
                }
                spec_run(src, s2)
            },
        }
    }
}

/// Decoding of a raw aPLib stream: a literal first byte, then tokens.
pub open spec fn spec_depack(src: Seq<u8>) -> Outcome<Seq<u8>> {
    match spec_read_byte(src, Bits { pos: 0, tag: 0, cnt: 0 }) {
        Err(e) => Outcome::Fail(e),
        Ok((b, first)) => spec_run(src, Dk { bits: b, dst: seq![first], r0: usize::MAX, lwm: false }),
    }
}

pub proof fn lemma_getbit(src: Seq<u8>, b: Bits)
    requires
        bits_ok(src, b),
    ensures
        spec_getbit(src, b) matches Ok((b1, bit)) ==> bits_ok(src, b1) && bits_left(src, b1)
            == bits_left(src, b) - 1 && b.pos <= b1.pos && (bit == 0 || bit == 1),
{
    let t = src[b.pos];
    assert((t >> 7u8) & 1u8 == 0 || (t >> 7u8) & 1u8 == 1) by (bit_vector);
    let u = b.tag;
    assert((u >> 7u8) & 1u8 == 0 || (u >> 7u8) & 1u8 == 1) by (bit_vector);
}

pub proof fn lemma_read_byte(src: Seq<u8>, b: Bits)
    requires
        bits_ok(src, b),
    ensures
        spec_read_byte(src, b) matches Ok((b1, _)) ==> bits_ok(src, b1) && bits_left(src, b1)
            == bits_left(src, b) - 8,
{
}

pub proof fn lemma_gamma_from(src: Seq<u8>, b: Bits, acc: usize)
    requires
        bits_ok(src, b),
    ensures
        spec_gamma_from(src, b, acc) matches Ok((b1, _)) ==> bits_ok(src, b1) && bits_left(src, b1)
            < bits_left(src, b),
    decreases bits_left(src, b),
{
    lemma_getbit(src, b);
    if let Ok((b1, bit)) = spec_getbit(src, b) {
        lemma_getbit(src, b1);
        if let Ok((b2, more)) = spec_getbit(src, b1) {
            if more != 0 {
                lemma_gamma_from(src, b2, (acc << 1usize) | (bit as usize));
            }
        }
    }
}

pub proof fn lemma_getbits(src: Seq<u8>, b: Bits, n: nat, acc: usize)
    requires
        bits_ok(src, b),
    ensures
        spec_getbits(src, b, n, acc) matches Ok((b1, _)) ==> bits_ok(src, b1) && bits_left(src, b1)
            <= bits_left(src, b),
    decreases n,
{
    if n > 0 {
        lemma_getbit(src, b);
        if let Ok((b1, bit)) = spec_getbit(src, b) {
            lemma_getbits(src, b1, (n - 1) as nat, (acc << 1usize) | (bit as usize));
        }
    }
}

pub proof fn lemma_step(src: Seq<u8>, s: Dk)
    requires
        bits_ok(src, s.bits),
    ensures
        spec_step(src, s) matches Outcome::Done((s2, _)) ==> bits_ok(src, s2.bits) && bits_left(
            src,
            s2.bits,
        ) < bits_left(src, s.bits),
{
    lemma_getbit(src, s.bits);
    if let Ok((b1, x)) = spec_getbit(src, s.bits) {
        lemma_read_byte(src, b1);
        lemma_getbit(src, b1);
        if let Ok((b2, y)) = spec_getbit(src, b1) {
            lemma_getbit(src, b2);
            if let Ok((b3, z)) = spec_getbit(src, b2) {
                lemma_getbits(src, b3, 4, 0);
                lemma_read_byte(src, b3);
            }
            lemma_gamma_from(src, b2, 1);
            if let Ok((b3, g)) = spec_gamma(src, b2) {
                lemma_gamma_from(src, b3, 1);
                lemma_read_byte(src, b3);
                if let Ok((b4, byte)) = spec_read_byte(src, b3) {
                    lemma_gamma_from(src, b4, 1);
                }
            }
        }
    }
}

/// Table-free CRC-32 (reflected, polynomial 0xEDB88320): `k` rounds of
/// the shift register.
pub open spec fn crc_rounds(c: u32, k: nat) -> u32
    decreases k,
{
    if k == 0 {
        c
    } else {
        let c1: u32 = if c & 1u32 != 0 {
            (c >> 1u32) ^ 0xEDB88320u32
        } else {
            c >> 1u32
        };
        crc_rounds(c1, (k - 1) as nat)
    }
}

/// Register after feeding `data` into an initial register `c`.
pub open spec fn crc_feed(c: u32, data: Seq<u8>) -> u32
    decreases data.len(),
{
    if data.len() == 0 {
        c
    } else {
        crc_feed(crc_rounds(c ^ (data[0] as u32), 8), data.drop_first())
    }
}

/// CRC-32 of a byte sequence.
pub open spec fn spec_crc32(data: Seq<u8>) -> u32 {
    !crc_feed(0xFFFFFFFFu32, data)
}

proof fn lemma_crc_feed_push(c: u32, data: Seq<u8>, x: u8)
    ensures
        crc_feed(c, data.push(x)) == crc_rounds(crc_feed(c, data) ^ (x as u32), 8),
    decreases data.len(),
{
    if data.len() == 0 {
        assert(data.push(x).drop_first() =~= Seq::<u8>::empty());
        reveal_with_fuel(crc_feed, 2);
    } else {
        assert(data.push(x).drop_first() =~= data.drop_first().push(x));
        lemma_crc_feed_push(crc_rounds(c ^ (data[0] as u32), 8), data.drop_first(), x);
    }
}

/// CRC-32 as used in AP32 headers.
pub fn crc32(data: &[u8]) -> (r: u32)
    ensures
        r == spec_crc32(data@),
{
    let mut crc: u32 = 0xFFFFFFFF;
    let mut i: usize = 0;
    while i < data.len()
        invariant
            i <= data.len(),
            crc == crc_feed(0xFFFFFFFFu32, data@.subrange(0, i as int)),
        decreases data.len() - i,
    {
        let byte = data[i];
        let ghost start = crc ^ (byte as u32);
        crc = crc ^ (byte as u32);
        let mut k: usize = 0;
        while k < 8
            invariant
                k <= 8,
                crc_rounds(crc, (8 - k) as nat) == crc_rounds(start, 8),
            decreases 8 - k,
        {
            if crc & 1 != 0 {
                crc = (crc >> 1) ^ 0xEDB88320;
            } else {
                crc = crc >> 1;
            }
            k = k + 1;
        }
        proof {
            lemma_crc_feed_push(0xFFFFFFFFu32, data@.subrange(0, i as int), byte);
            assert(data@.subrange(0, i as int).push(byte) =~= data@.subrange(0, i + 1));
        }
        i = i + 1;
    }
    assert(data@.subrange(0, data.len() as int) =~= data@);
    !crc
}

/// Decompress an aPLib-compressed buffer.  A buffer that starts with an
/// `AP32` header is unwrapped first; with `strict` set, the CRC of the packed
/// data, and the size and CRC of the depacked data, recorded in that header
/// are checked.
pub fn decompress(data: &[u8], strict: bool) -> (r: Result<Vec<u8>, AplibError>)
    requires
        !(spec_decompress(data@, strict) is Overflow),
    ensures
        match spec_decompress(data@, strict) {
            Outcome::Done(v) => r is Ok && r->Ok_0@ == v,
            Outcome::Fail(e) => r == Err::<Vec<u8>, AplibError>(e),
            Outcome::Overflow => false,
        },
{
    match decompress_outcome(data, strict) {
        Outcome::Done(v) => Ok(v),
        Outcome::Fail(e) => Err(e),
        Outcome::Overflow => Err(AplibError::InvalidHeader),
    }
}

/// [`decompress`] on any input: `None` where a match length does not fit
/// in a `usize`.
pub fn decompress_checked(data: &[u8], strict: bool) -> (r: Option<Result<Vec<u8>, AplibError>>)
    ensures
        match spec_decompress(data@, strict) {
            Outcome::Done(v) => r matches Some(Ok(w)) && w@ == v,
            Outcome::Fail(e) => r == Some(Err::<Vec<u8>, AplibError>(e)),
            Outcome::Overflow => r is None,
        },
{
    match decompress_outcome(data, strict) {
        Outcome::Done(v) => Some(Ok(v)),
        Outcome::Fail(e) => Some(Err(e)),
        Outcome::Overflow => None,
    }
}

/// The decoded stream and its failures, as an exact copy of the model.
pub open spec fn outcome_is(r: Outcome<Vec<u8>>, m: Outcome<Seq<u8>>) -> bool {
    match m {
        Outcome::Done(v) => r matches Outcome::Done(w) && w@ == v,
        Outcome::Fail(e) => r == Outcome::<Vec<u8>>::Fail(e),
        Outcome::Overflow => r is Overflow,
    }
}

fn decompress_outcome(data: &[u8], strict: bool) -> (r: Outcome<Vec<u8>>)
    ensures
        outcome_is(r, spec_decompress(data@, strict)),
{
    reveal(spec_decompress);
    if data.len() >= 24 && data[0] == 0x41 && data[1] == 0x50 && data[2] == 0x33 && data[3] == 0x32 {
        let header_size = read_u32_le(data, 4) as usize;
        let packed_size = read_u32_le(data, 8) as usize;
        let packed_crc = read_u32_le(data, 12);
        if header_size as u64 + packed_size as u64 > data.len() as u64 {
            return Outcome::Fail(AplibError::InvalidHeader);
        }
        let payload = slice_range(data, header_size, header_size + packed_size);
        if strict {
            let crc = crc32(payload);
            if crc != packed_crc {
                return Outcome::Fail(AplibError::PackedCrcMismatch);
            }
        }
        let mut dec = AplibDecoder::new(payload);
        let out = dec.depack();
        if !strict {
            return out;
        }
        let orig_size = read_u32_le(data, 16);
        let orig_crc = read_u32_le(data, 20);
        match out {
            Outcome::Done(v) => {
                if v.len() as u64 != orig_size as u64 {
                    Outcome::Fail(AplibError::OriginalSizeMismatch)
                } else if crc32(v.as_slice()) != orig_crc {
                    Outcome::Fail(AplibError::OriginalCrcMismatch)
                } else {
                    Outcome::Done(v)
                }
            },
            other => other,
        }
    } else {
        let mut dec = AplibDecoder::new(data);
        dec.depack()
    }
}

/// The model of [`decompress`].
#[verifier::opaque]
pub open spec fn spec_decompress(data: Seq<u8>, strict: bool) -> Outcome<Seq<u8>> {
    if data.len() >= 24 && data[0] == 0x41 && data[1] == 0x50 && data[2] == 0x33 && data[3] == 0x32 {
        let header_size = spec_u32_le(data, 4) as int;
        let packed_size = spec_u32_le(data, 8) as int;
        if header_size + packed_size > data.len() {
            Outcome::Fail(AplibError::InvalidHeader)
        } else {
            let payload = data.subrange(header_size, header_size + packed_size);
            if strict && spec_crc32(payload) != spec_u32_le(data, 12) {
                Outcome::Fail(AplibError::PackedCrcMismatch)
            } else if strict {
                match spec_depack(payload) {
                    Outcome::Done(v) => if v.len() != spec_u32_le(data, 16) {
                        Outcome::Fail(AplibError::OriginalSizeMismatch)
                    } else if spec_crc32(v) != spec_u32_le(data, 20) {
                        Outcome::Fail(AplibError::OriginalCrcMismatch)
                    } else {
                        Outcome::Done(v)
                    },
                    other => other,
                }
            } else {
                spec_depack(payload)
            }
        }
    } else {
        spec_depack(data)
    }
}

/// Decoder state: the compressed stream, the bit reader and the output.
struct AplibDecoder<'a> {
    src: &'a [u8],
    src_pos: usize,
    dst: Vec<u8>,
    tag: u8,
    bitcount: i32,
}

impl<'a> AplibDecoder<'a> {
    spec fn bits(&self) -> Bits {
        Bits { pos: self.src_pos as int, tag: self.tag, cnt: self.bitcount as int }
    }

    spec fn inv(&self) -> bool {
        bits_ok(self.src@, self.bits())
    }

    fn new(src: &'a [u8]) -> (d: Self)
        ensures
            d.src@ == src@,
            d.src_pos == 0,
            d.dst@ == Seq::<u8>::empty(),
            d.tag == 0,
            d.bitcount == 0,
    {
        AplibDecoder { src, src_pos: 0, dst: Vec::new(), tag: 0, bitcount: 0 }
    }

    /// Read one byte from the compressed stream.
    fn read_byte(&mut self) -> (r: Result<u8, AplibError>)
        requires
            old(self).inv(),
        ensures
            final(self).src@ == old(self).src@,
            final(self).dst@ == old(self).dst@,
            match spec_read_byte(old(self).src@, old(self).bits()) {
                Err(e) => r == Err::<u8, AplibError>(e),
                Ok((b, v)) => r == Ok::<u8, AplibError>(v) && final(self).bits() == b && final(self).inv(),
            },
    {
        if self.src_pos >= self.src.len() {
            return Err(AplibError::UnexpectedEof);
        }
        let b = self.src[self.src_pos];
        self.src_pos = self.src_pos + 1;
        Ok(b)
    }

    /// Read one bit, most significant bit of the tag byte first.
    fn getbit(&mut self) -> (r: Result<u8, AplibError>)
        requires
            old(self).inv(),
        ensures
            final(self).src@ == old(self).src@,
            final(self).dst@ == old(self).dst@,
            match spec_getbit(old(self).src@, old(self).bits()) {
                Err(e) => r == Err::<u8, AplibError>(e),
                Ok((b, v)) => r == Ok::<u8, AplibError>(v) && final(self).bits() == b && final(self).inv(),
            },
    {
        proof {
            lemma_getbit(self.src@, self.bits());
        }
        self.bitcount = self.bitcount - 1;
        if self.bitcount < 0 {
            if self.src_pos >= self.src.len() {
                return Err(AplibError::UnexpectedEof);
            }
            self.tag = self.src[self.src_pos];
            self.src_pos = self.src_pos + 1;
            self.bitcount = 7;
        }
        let bit = (self.tag >> 7) & 1;
        self.tag = self.tag << 1;
        Ok(bit)
    }

    /// Read an Elias gamma coded number.
    fn getgamma(&mut self) -> (r: Result<usize, AplibError>)
        requires
            old(self).inv(),
        ensures
            final(self).src@ == old(self).src@,
            final(self).dst@ == old(self).dst@,
            match spec_gamma(old(self).src@, old(self).bits()) {
                Err(e) => r == Err::<usize, AplibError>(e),
                Ok((b, v)) => r == Ok::<usize, AplibError>(v) && final(self).bits() == b && final(self).inv(),
            },
    {
        let mut result: usize = 1;
        let ghost src = self.src@;
        let ghost dst = self.dst@;
        loop
            invariant
                self.inv(),
                src == old(self).src@,
                dst == old(self).dst@,
                self.src@ == src,
                self.dst@ == dst,
                spec_gamma_from(src, self.bits(), result) == spec_gamma(src, old(self).bits()),
            decreases bits_left(src, self.bits()),
        {
            proof {
                lemma_getbit(src, self.bits());
            }
            let ghost b0 = self.bits();
            let bit = match self.getbit() {
                Ok(v) => v,
                Err(e) => return Err(e),
            };
            proof {
                lemma_getbit(src, self.bits());
                assert((result << 1usize) + (bit as usize) == ((result << 1usize) | (bit as usize)))
                    by (bit_vector)
                    requires
                        bit <= 1,
                ;
            }
            result = (result << 1) + bit as usize;
            let more = match self.getbit() {
                Ok(v) => v,
                Err(e) => return Err(e),
            };
            if more == 0 {
                return Ok(result);
            }
        }
    }

    /// Read four bits as a number.
    fn getbits4(&mut self) -> (r: Result<usize, AplibError>)
        requires
            old(self).inv(),
        ensures
            final(self).src@ == old(self).src@,
            final(self).dst@ == old(self).dst@,
            match spec_getbits(old(self).src@, old(self).bits(), 4, 0) {
                Err(e) => r == Err::<usize, AplibError>(e),
                Ok((b, v)) => r == Ok::<usize, AplibError>(v) && final(self).bits() == b && final(self).inv(),
            },
    {
        let mut offs: usize = 0;
        let mut k: usize = 0;
        let ghost src = self.src@;
        let ghost dst = self.dst@;
        while k < 4
            invariant
                k <= 4,
                k == 0 ==> offs == 0,
                k == 1 ==> offs < 2,
                k == 2 ==> offs < 4,
                k == 3 ==> offs < 8,
                offs < 16,
                self.inv(),
                src == old(self).src@,
                dst == old(self).dst@,
                self.src@ == src,
                self.dst@ == dst,
                spec_getbits(src, self.bits(), (4 - k) as nat, offs) == spec_getbits(
                    src,
                    old(self).bits(),
                    4,
                    0,
                ),
            decreases 4 - k,
        {
            proof {
                lemma_getbit(src, self.bits());
            }
            let bit = match self.getbit() {
                Ok(v) => v,
                Err(e) => return Err(e),
            };
            proof {
                assert(offs < 8 && bit < 2 ==> (offs << 1usize) + (bit as usize) == ((offs << 1usize)
                    | (bit as usize)) && (offs << 1usize) == offs * 2) by (bit_vector);
            }
            offs = (offs << 1) + bit as usize;
            k = k + 1;
        }
        Ok(offs)
    }

    /// Copy `length` bytes from `offs` bytes back in the output.
    fn copy_match(&mut self, offs: usize, length: usize) -> (ok: bool)
        ensures
            final(self).src@ == old(self).src@,
            final(self).bits() == old(self).bits(),
            match spec_copy(old(self).dst@, offs, length as nat) {
                None => !ok,
                Some(d) => ok && final(self).dst@ == d,
            },
    {
        let mut k: usize = 0;
        while k < length
            invariant
                k <= length,
                self.src@ == old(self).src@,
                self.bits() == old(self).bits(),
                spec_copy(self.dst@, offs, (length - k) as nat) == spec_copy(
                    old(self).dst@,
                    offs,
                    length as nat,
                ),
            decreases length - k,
        {
            if offs >= 1 && offs <= self.dst.len() {
                let byte = self.dst[self.dst.len() - offs];
                self.dst.push(byte);
            } else {
                return false;
            }
            k = k + 1;
        }
        true
    }

    /// Decode one token; returns whether the end marker was read.
    fn step(&mut self, r0: &mut usize, lwm: &mut bool) -> (r: Outcome<bool>)
        requires
            old(self).inv(),
        ensures
            final(self).src@ == old(self).src@,
            match spec_step(
                old(self).src@,
                Dk { bits: old(self).bits(), dst: old(self).dst@, r0: *old(r0), lwm: *old(lwm) },
            ) {
                Outcome::Fail(e) => r == Outcome::<bool>::Fail(e),
                Outcome::Overflow => r is Overflow,
                Outcome::Done((s2, done)) => r == Outcome::<bool>::Done(done) && final(self).bits()
                    == s2.bits && final(self).dst@ == s2.dst && *final(r0) == s2.r0 && *final(lwm)
                    == s2.lwm && final(self).inv(),
            },
    {
        let ghost src = self.src@;
        let ghost s0 = Dk { bits: self.bits(), dst: self.dst@, r0: *r0, lwm: *lwm };
        proof {
            lemma_step(src, s0);
            lemma_getbit(src, self.bits());
        }
        let x = match self.getbit() {
            Ok(v) => v,
            Err(e) => return Outcome::Fail(e),
        };
        let ghost b1 = self.bits();
        if x == 0 {
            let lit = match self.read_byte() {
                Ok(v) => v,
                Err(e) => return Outcome::Fail(e),
            };
            self.dst.push(lit);
            *lwm = false;
            return Outcome::Done(false);
        }
        proof {
            lemma_getbit(src, self.bits());
        }
        let y = match self.getbit() {
            Ok(v) => v,
            Err(e) => return Outcome::Fail(e),
        };
        let ghost b2 = self.bits();
        if y != 0 {
            proof {
                lemma_getbit(src, self.bits());
            }
            let z = match self.getbit() {
                Ok(v) => v,
                Err(e) => return Outcome::Fail(e),
            };
            if z != 0 {
                let offs = match self.getbits4() {
                    Ok(v) => v,
                    Err(e) => return Outcome::Fail(e),
                };
                if offs != 0 {
                    if offs >= 1 && offs <= self.dst.len() {
                        let b = self.dst[self.dst.len() - offs];
                        self.dst.push(b);
                    }
                } else {
                    self.dst.push(0);
                }
                *lwm = false;
                Outcome::Done(false)
            } else {
                let b = match self.read_byte() {
                    Ok(v) => v,
                    Err(e) => return Outcome::Fail(e),
                };
                let offs = (b >> 1) as usize;
                let length = 2 + (b & 1) as usize;
                if offs != 0 {
                    if !self.copy_match(offs, length) {
                        return Outcome::Fail(AplibError::InvalidOffset);
                    }
                    *r0 = offs;
                    *lwm = true;
                    Outcome::Done(false)
                } else {
                    *r0 = 0;
                    *lwm = true;
                    Outcome::Done(true)
                }
            }
        } else {
            proof {
                lemma_gamma_from(src, self.bits(), 1);
            }
            let g = match self.getgamma() {
                Ok(v) => v,
                Err(e) => return Outcome::Fail(e),
            };
            let ghost b3 = self.bits();
            assert(spec_gamma(src, b2) == Ok::<(Bits, usize), AplibError>((b3, g)));
            if !*lwm && g == 2 {
                proof {
                    lemma_gamma_from(src, self.bits(), 1);
                }
                let length = match self.getgamma() {
                    Ok(v) => v,
                    Err(e) => return Outcome::Fail(e),
                };
                if !self.copy_match(*r0, length) {
                    return Outcome::Fail(AplibError::InvalidOffset);
                }
                *lwm = true;
                Outcome::Done(false)
            } else {
                let o1 = if !*lwm {
                    g.wrapping_sub(3)
                } else {
                    g.wrapping_sub(2)
                };
                let byte = match self.read_byte() {
                    Ok(v) => v,
                    Err(e) => return Outcome::Fail(e),
                };
                let ghost b4 = self.bits();
                assert(spec_read_byte(src, b3) == Ok::<(Bits, u8), AplibError>((b4, byte)));
                proof {
                    assert((o1 << 8usize) + (byte as usize) == ((o1 << 8usize) | (byte as usize)))
                        by (bit_vector);
                    lemma_read_byte(src, b3);
                    lemma_gamma_from(src, self.bits(), 1);
                }
                let offs = (o1 << 8) + byte as usize;
                let mut length = match self.getgamma() {
                    Ok(v) => v,
                    Err(e) => return Outcome::Fail(e),
                };
                let ghost b5 = self.bits();
                assert(spec_gamma(src, b4) == Ok::<(Bits, usize), AplibError>((b5, length)));
                let extra: usize = if offs >= 32000 {
                    1
                } else {
                    0
                } + if offs >= 1280 {
                    1
                } else {
                    0
                } + if offs < 128 {
                    2
                } else {
                    0
                };
                if length > usize::MAX - extra {
                    return Outcome::Overflow;
                }
                assert(length + long_match_extra(offs) <= usize::MAX);
                let ghost len0 = length;
                if offs >= 32000 {
                    length = length + 1;
                }
                if offs >= 1280 {
                    length = length + 1;
                }
                if offs < 128 {
                    length = length + 2;
                }
                assert(length == len0 + long_match_extra(offs));
                if !self.copy_match(offs, length) {
                    return Outcome::Fail(AplibError::InvalidOffset);
                }
                *r0 = offs;
                *lwm = true;
                Outcome::Done(false)
            }
        }
    }

    /// Main decompression loop.
    fn depack(&mut self) -> (r: Outcome<Vec<u8>>)
        requires
            old(self).src_pos == 0,
            old(self).tag == 0,
            old(self).bitcount == 0,
            old(self).dst@ == Seq::<u8>::empty(),
        ensures
            outcome_is(r, spec_depack(old(self).src@)),
    {
        let ghost src = self.src@;
        let first = match self.read_byte() {
            Ok(v) => v,
            Err(e) => return Outcome::Fail(e),
        };
        self.dst.push(first);
        let mut r0: usize = usize::MAX;
        let mut lwm: bool = false;
        loop
            invariant
                self.src@ == src,
                src == old(self).src@,
                self.inv(),
                spec_run(src, Dk { bits: self.bits(), dst: self.dst@, r0, lwm }) == spec_depack(src),
            decreases bits_left(src, self.bits()),
        {
            let ghost s = Dk { bits: self.bits(), dst: self.dst@, r0, lwm };
            proof {
                lemma_step(src, s);
            }
            let done = match self.step(&mut r0, &mut lwm) {
                Outcome::Done(d) => d,
                Outcome::Fail(e) => return Outcome::Fail(e),
                Outcome::Overflow => return Outcome::Overflow,
            };
            if done {
                let mut out: Vec<u8> = Vec::new();
                std::mem::swap(&mut out, &mut self.dst);
                return Outcome::Done(out);
            }
        }
    }
}

/// Checking the CRC of an `AP32` header never changes what comes out: a
/// buffer that decompresses with the check decompresses to the same bytes
/// without it.
pub proof fn law_strict_agrees_with_lenient(data: Seq<u8>)
    ensures
        spec_decompress(data, true) matches Outcome::Done(v) ==> spec_decompress(data, false) == Outcome::<Seq<u8>>::Done(v),
{
    reveal(spec_decompress);
}

/// `AP32` framing: with a readable header the payload it frames is what is
/// decompressed; the lenient mode ignores every checksum, the strict mode
/// refuses a wrong packed CRC, a wrong depacked size and a wrong depacked
/// CRC, in that order, and a header that runs past the data is refused in
/// both modes.
pub proof fn law_ap32_framing(data: Seq<u8>)
    requires
        data.len() >= 24,
        data[0] == 0x41 && data[1] == 0x50 && data[2] == 0x33 && data[3] == 0x32,
    ensures
        ({
            let h = spec_u32_le(data, 4) as int;
            let n = spec_u32_le(data, 8) as int;
            let payload = data.subrange(h, h + n);
            &&& h + n > data.len() ==> spec_decompress(data, false) == Outcome::<Seq<u8>>::Fail(AplibError::InvalidHeader)
                && spec_decompress(data, true) == Outcome::<Seq<u8>>::Fail(AplibError::InvalidHeader)
            &&& h + n <= data.len() ==> spec_decompress(data, false) == spec_depack(payload)
            &&& h + n <= data.len() && spec_crc32(payload) != spec_u32_le(data, 12) ==> spec_decompress(data, true)
                == Outcome::<Seq<u8>>::Fail(AplibError::PackedCrcMismatch)
            &&& h + n <= data.len() && spec_crc32(payload) == spec_u32_le(data, 12) ==> match spec_depack(payload) {
                Outcome::Done(v) => spec_decompress(data, true) == if v.len() != spec_u32_le(data, 16) {
                    Outcome::<Seq<u8>>::Fail(AplibError::OriginalSizeMismatch)
                } else if spec_crc32(v) != spec_u32_le(data, 20) {
                    Outcome::<Seq<u8>>::Fail(AplibError::OriginalCrcMismatch)
                } else {
                    Outcome::<Seq<u8>>::Done(v)
                },
                other => spec_decompress(data, true) == other,
            }
        }),
{
    reveal(spec_decompress);
}

proof fn lemma_copy_len(dst: Seq<u8>, offs: usize, n: nat)
    ensures
        spec_copy(dst, offs, n) matches Some(d) ==> d.len() == dst.len() + n && d.subrange(0, dst.len() as int)
            == dst,
    decreases n,
{
    if n > 0 && 1 <= offs <= dst.len() {
        let d1 = dst.push(dst[dst.len() - offs]);
        lemma_copy_len(d1, offs, (n - 1) as nat);
        if let Some(d) = spec_copy(dst, offs, n) {
            assert(d.subrange(0, dst.len() as int) =~= d.subrange(0, d1.len() as int).subrange(0, dst.len() as int));
            assert(d1.subrange(0, dst.len() as int) =~= dst);
        }
    }
}

/// A long match (token bits `1 0`, a gamma-coded high offset, a low
/// offset byte, a gamma-coded length) copies its coded length plus a
/// bonus that depends on the offset: 2 more bytes for an offset below 128,
/// 1 more for an offset of at least 1280 and 1 more again for one of at
/// least 32000.  The output grows by exactly that many bytes, all copied
/// from `offs` bytes back, and the earlier output is kept.
pub proof fn law_long_match_length(src: Seq<u8>, s: Dk, b1: Bits, b2: Bits, g: usize, b3: Bits, byte: u8, b4: Bits, len0: usize, b5: Bits)
    requires
        spec_getbit(src, s.bits) == Ok::<(Bits, u8), AplibError>((b1, 1u8)),
        spec_getbit(src, b1) == Ok::<(Bits, u8), AplibError>((b2, 0u8)),
        spec_gamma(src, b2) == Ok::<(Bits, usize), AplibError>((b3, g)),
        !(!s.lwm && g == 2),
        spec_read_byte(src, b3) == Ok::<(Bits, u8), AplibError>((b4, byte)),
        spec_gamma(src, b4) == Ok::<(Bits, usize), AplibError>((b5, len0)),
        len0 + 3 <= usize::MAX,
    ensures
        ({
            let high: usize = if !s.lwm {
                g.wrapping_sub(3)
            } else {
                g.wrapping_sub(2)
            };
            let offs: usize = (high << 8usize) | (byte as usize);
            let n: nat = (len0 + (if offs < 128 {
                2int
            } else {
                0int
            }) + (if offs >= 1280 {
                1int
            } else {
                0int
            }) + (if offs >= 32000 {
                1int
            } else {
                0int
            })) as nat;
            &&& spec_step(src, s) == match spec_copy(s.dst, offs, n) {
                None => Outcome::<(Dk, bool)>::Fail(AplibError::InvalidOffset),
                Some(d) => Outcome::Done((Dk { bits: b5, dst: d, r0: offs, lwm: true }, false)),
            }
            &&& spec_step(src, s) matches Outcome::Done((s2, _)) ==> s2.dst.len() == s.dst.len() + n
                && s2.dst.subrange(0, s.dst.len() as int) == s.dst
        }),
{
    let high: usize = if !s.lwm {
        g.wrapping_sub(3)
    } else {
        g.wrapping_sub(2)
    };
    let offs: usize = (high << 8usize) | (byte as usize);
    let n: nat = (len0 + long_match_extra(offs)) as nat;
    lemma_copy_len(s.dst, offs, n);
}

} // verus!
