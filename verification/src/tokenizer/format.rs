//! The `.sovereign-tokenizer` container: the configuration records and the
//! framing of the encoded payload.
//!
//! File layout (little-endian):
//!   bytes 0..5    magic "IMTK\0"
//!   bytes 5..7    major version (u16)
//!   bytes 7..9    minor version (u16)
//!   bytes 9..13   payload length (u32)
//!   bytes 13..    encoded `SovereignTokenizerData`

use vstd::prelude::*;

use crate::text::{byte_list, decimal, push_byte_list, push_decimal, push_str};
use crate::tokenizer::error::{Result, TokenizerError};

verus! {

pub const FORMAT_VERSION_MAJOR: u16 = 1;

pub const FORMAT_VERSION_MINOR: u16 = 0;

/// Bytes before the payload: magic, two versions, payload length.
pub const HEADER_LEN: usize = 13;

/// Everything a tokenizer is built from.
#[derive(Debug, Clone, PartialEq, Eq)]
pub struct SovereignTokenizerData {
    pub vocab: Vec<String>,
    pub normalizer: NormalizerDisk,
    pub pretokenizer: PreTokenizerDisk,
    pub wordpiece: WordPieceDisk,
    pub truncation: TruncationDisk,
    pub special_tokens: SpecialTokensDisk,
    pub padding: PaddingDisk,
}

#[derive(Debug, Clone, PartialEq, Eq, Default)]
pub struct PaddingDisk {
    /// When false, no padding is applied whatever the other fields say.
    pub enabled: bool,
    pub strategy: PaddingStrategyDisk,
    pub direction: PaddingDirectionDisk,
    pub pad_id: u32,
    pub pad_type_id: u32,
}

#[derive(Debug, Clone, Copy, PartialEq, Eq, Default)]
pub enum PaddingStrategyDisk {
    #[default]
    Disabled,
    Fixed(usize),
}

#[derive(Debug, Clone, Copy, PartialEq, Eq, Default)]
pub enum PaddingDirectionDisk {
    #[default]
    Right,
    Left,
}

#[derive(Debug, Clone, PartialEq, Eq)]
pub struct NormalizerDisk {
    pub lowercase: bool,
    pub strip_accents: bool,
    pub handle_chinese_chars: bool,
    pub clean_text: bool,
}

#[derive(Debug, Clone, PartialEq, Eq)]
pub struct PreTokenizerDisk {
    pub do_basic_split: bool,
    pub never_split: Vec<String>,
}

#[derive(Debug, Clone, PartialEq, Eq)]
pub struct WordPieceDisk {
    pub unk_token: String,
    pub continuing_subword_prefix: String,
    pub max_input_chars_per_word: usize,
}

#[derive(Debug, Clone, Copy, PartialEq, Eq)]
pub enum TruncationStrategyDisk {
    LongestFirst,
    OnlyFirst,
    OnlySecond,
}

#[derive(Debug, Clone, PartialEq, Eq)]
pub struct TruncationDisk {
    pub max_length: usize,
    pub strategy: TruncationStrategyDisk,
    pub stride: usize,
}

#[derive(Debug, Clone, PartialEq, Eq)]
pub struct SpecialTokensDisk {
    pub cls: String,
    pub sep: String,
    pub pad: String,
    pub unk: String,
    pub mask: String,
}

/// The magic bytes "IMTK\0".
pub open spec fn format_magic() -> Seq<u8> {
    seq![0x49u8, 0x4Du8, 0x54u8, 0x4Bu8, 0x00u8]
}

pub fn magic() -> (m: [u8; 5])
    ensures
        m@ == format_magic(),
{
    let m: [u8; 5] = [0x49, 0x4D, 0x54, 0x4B, 0x00];
    assert(m@ =~= format_magic());
    m
}

/// Little-endian encoding of a `u16`.
pub open spec fn u16_le(v: u16) -> Seq<u8> {
    seq![(v % 256) as u8, (v / 256) as u8]
}

/// Little-endian encoding of a `u32`.
pub open spec fn u32_le(v: u32) -> Seq<u8> {
    seq![(v % 256) as u8, ((v / 256) % 256) as u8, ((v / 65536) % 256) as u8, (v / 16777216) as u8]
}

/// The little-endian `u16` at `at`.
pub open spec fn le16_at(b: Seq<u8>, at: int) -> u16 {
    (b[at] + 256 * b[at + 1]) as u16
}

/// The little-endian `u32` at `at`.
pub open spec fn le32_at(b: Seq<u8>, at: int) -> u32 {
    (b[at] + 256 * b[at + 1] + 65536 * b[at + 2] + 16777216 * b[at + 3]) as u32
}

/// A complete file holding `payload` at the current version.
pub open spec fn framed(payload: Seq<u8>) -> Seq<u8> {
    format_magic() + u16_le(FORMAT_VERSION_MAJOR) + u16_le(FORMAT_VERSION_MINOR) + u32_le(
        payload.len() as u32,
    ) + payload
}

/// What reading the header of `b` gives: `Ok((minor, payload))` or the error.
pub open spec fn unframed(b: Seq<u8>) -> core::result::Result<(u16, Seq<u8>), TokenizerError> {
    if b.len() < HEADER_LEN {
        Err(TokenizerError::HeaderCorrupt { reason: arbitrary() })
    } else if b.take(5) != format_magic() {
        Err(TokenizerError::HeaderCorrupt { reason: arbitrary() })
    } else if le16_at(b, 5) != FORMAT_VERSION_MAJOR {
        Err(
            TokenizerError::UnsupportedFormatVersion {
                found_major: le16_at(b, 5),
                supported_major: FORMAT_VERSION_MAJOR,
            },
        )
    } else if HEADER_LEN + le32_at(b, 9) > usize::MAX || HEADER_LEN + le32_at(b, 9) > b.len() {
        Err(TokenizerError::HeaderCorrupt { reason: arbitrary() })
    } else {
        Ok((le16_at(b, 7), b.subrange(HEADER_LEN as int, HEADER_LEN + le32_at(b, 9))))
    }
}

/// The diagnostic of each header error.
pub open spec fn header_reason(b: Seq<u8>) -> Seq<char> {
    let len = le32_at(b, 9) as nat;
    if b.len() < HEADER_LEN {
        "file too small: "@ + decimal(b.len()) + " bytes < "@ + decimal(HEADER_LEN as nat)
            + " header bytes"@
    } else if b.take(5) != format_magic() {
        "bad magic: expected "@ + byte_list(format_magic()) + ", got "@ + byte_list(b.take(5))
    } else if HEADER_LEN + len > usize::MAX {
        "declared payload length "@ + decimal(len) + " overflows header size"@
    } else {
        "declared payload length "@ + decimal(len) + " exceeds available bytes "@ + decimal(
            (b.len() - HEADER_LEN) as nat,
        )
    }
}

/// Prepend the header to an encoded payload.
pub fn frame_payload(payload: &[u8]) -> (r: Result<Vec<u8>>)
    ensures
        payload@.len() <= u32::MAX ==> r == Ok::<Vec<u8>, TokenizerError>(r->Ok_0) && r->Ok_0@
            == framed(payload@),
        payload@.len() > u32::MAX ==> (r matches Err(TokenizerError::PayloadCorrupt { reason })
            && reason@ == "payload length "@ + decimal(payload@.len()) + " exceeds u32::MAX"@),
{
    let n = payload.len();
    if n > 0xFFFF_FFFF {
        let mut reason = String::new();
        push_str(&mut reason, "payload length ");
        push_decimal(&mut reason, n as u64);
        push_str(&mut reason, " exceeds u32::MAX");
        return Err(TokenizerError::PayloadCorrupt { reason });
    }
    let len = n as u32;
    let mut buf: Vec<u8> = Vec::new();
    let m = magic();
    buf.push(m[0]);
    buf.push(m[1]);
    buf.push(m[2]);
    buf.push(m[3]);
    buf.push(m[4]);
    buf.push((FORMAT_VERSION_MAJOR % 256) as u8);
    buf.push((FORMAT_VERSION_MAJOR / 256) as u8);
    buf.push((FORMAT_VERSION_MINOR % 256) as u8);
    buf.push((FORMAT_VERSION_MINOR / 256) as u8);
    buf.push((len % 256) as u8);
    buf.push(((len / 256) % 256) as u8);
    buf.push(((len / 65536) % 256) as u8);
    buf.push((len / 16777216) as u8);
    let ghost head = buf@;
    let mut i: usize = 0;
    while i < n
        invariant
            n == payload@.len(),
            i <= n,
            buf@ == head + payload@.take(i as int),
        decreases n - i,
    {
        buf.push(payload[i]);
        i += 1;
        assert(buf@ =~= head + payload@.take(i as int));
    }
    assert(payload@.take(n as int) =~= payload@);
    assert(buf@ =~= framed(payload@));
    Ok(buf)
}

/// Check the header of `bytes` and return the minor version with the
/// payload it announces.
pub fn unframe(bytes: &[u8]) -> (r: Result<(u16, Vec<u8>)>)
    ensures
        unframed(bytes@) matches Ok((minor, payload)) ==> (r matches Ok((m, p)) && m == minor && p@
            == payload),
        unframed(bytes@) matches Err(TokenizerError::UnsupportedFormatVersion { .. }) ==> r
            == Err::<(u16, Vec<u8>), TokenizerError>(unframed(bytes@)->Err_0),
        unframed(bytes@) matches Err(TokenizerError::HeaderCorrupt { .. }) ==> (r matches Err(
            TokenizerError::HeaderCorrupt { reason },
        ) && reason@ == header_reason(bytes@)),
{
    let n = bytes.len();
    if n < HEADER_LEN {
        let mut reason = String::new();
        push_str(&mut reason, "file too small: ");
        push_decimal(&mut reason, n as u64);
        push_str(&mut reason, " bytes < ");
        push_decimal(&mut reason, HEADER_LEN as u64);
        push_str(&mut reason, " header bytes");
        return Err(TokenizerError::HeaderCorrupt { reason });
    }
    let m = magic();
    if bytes[0] != m[0] || bytes[1] != m[1] || bytes[2] != m[2] || bytes[3] != m[3] || bytes[4]
        != m[4] {
        proof {
            assert(bytes@.take(5) != format_magic()) by {
                if bytes@.take(5) == format_magic() {
                    assert(bytes@.take(5)[0] == bytes@[0]);
                }
            }
        }
        let mut reason = String::new();
        push_str(&mut reason, "bad magic: expected ");
        push_byte_list(&mut reason, &m);
        push_str(&mut reason, ", got ");
        let mut got: Vec<u8> = Vec::new();
        got.push(bytes[0]);
        got.push(bytes[1]);
        got.push(bytes[2]);
        got.push(bytes[3]);
        got.push(bytes[4]);
        assert(got@ =~= bytes@.take(5));
        push_byte_list(&mut reason, got.as_slice());
        return Err(TokenizerError::HeaderCorrupt { reason });
    }
    assert(bytes@.take(5) =~= format_magic());
    let major = (bytes[5] as u16) + 256 * (bytes[6] as u16);
    let minor = (bytes[7] as u16) + 256 * (bytes[8] as u16);
    if major != FORMAT_VERSION_MAJOR {
        return Err(
            TokenizerError::UnsupportedFormatVersion {
                found_major: major,
                supported_major: FORMAT_VERSION_MAJOR,
            },
        );
    }
    let payload_len = (bytes[9] as u32) + 256 * (bytes[10] as u32) + 65536 * (bytes[11] as u32)
        + 16777216 * (bytes[12] as u32);
    if payload_len as usize > usize::MAX - HEADER_LEN {
        let mut reason = String::new();
        push_str(&mut reason, "declared payload length ");
        push_decimal(&mut reason, payload_len as u64);
        push_str(&mut reason, " overflows header size");
        return Err(TokenizerError::HeaderCorrupt { reason });
    }
    let payload_end = HEADER_LEN + payload_len as usize;
    if payload_end > n {
        let mut reason = String::new();
        push_str(&mut reason, "declared payload length ");
        push_decimal(&mut reason, payload_len as u64);
        push_str(&mut reason, " exceeds available bytes ");
        push_decimal(&mut reason, (n - HEADER_LEN) as u64);
        return Err(TokenizerError::HeaderCorrupt { reason });
    }
    let mut payload: Vec<u8> = Vec::new();
    let mut i = HEADER_LEN;
    while i < payload_end
        invariant
            HEADER_LEN <= i <= payload_end <= bytes@.len(),
            payload@ == bytes@.subrange(HEADER_LEN as int, i as int),
        decreases payload_end - i,
    {
        payload.push(bytes[i]);
        i += 1;
        assert(payload@ =~= bytes@.subrange(HEADER_LEN as int, i as int));
    }
    Ok((minor, payload))
}

/// Reading back a framed payload gives the payload at the current minor version.
pub proof fn law_frame_roundtrip(payload: Seq<u8>)
    requires
        HEADER_LEN + payload.len() <= usize::MAX,
        payload.len() <= u32::MAX,
    ensures
        unframed(framed(payload)) == Ok::<(u16, Seq<u8>), TokenizerError>((FORMAT_VERSION_MINOR, payload)),
{
    let b = framed(payload);
    let len = payload.len() as u32;
    assert(b.take(5) =~= format_magic());
    assert(le16_at(b, 5) == FORMAT_VERSION_MAJOR);
    assert(le16_at(b, 7) == FORMAT_VERSION_MINOR);
    assert(b[9] == (len % 256) as u8);
    assert(b[10] == ((len / 256) % 256) as u8);
    assert(b[11] == ((len / 65536) % 256) as u8);
    assert(b[12] == (len / 16777216) as u8);
    assert(le32_at(b, 9) == len);
    assert(b.subrange(HEADER_LEN as int, HEADER_LEN + len) =~= payload);
}

} // verus!
