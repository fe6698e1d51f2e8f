//! Section header (64 bytes) parser and writer.
//!
//! ```text
//! 0x00..0x06   magic "DWARFS"
//! 0x06         major version (u8)
//! 0x07         minor version (u8)
//! 0x08..0x28   SHA-512/256 over bytes >= 0x28
//! 0x28..0x30   XXH3-64 (u64 LE) over bytes >= 0x30
//! 0x30..0x34   section number (u32 LE)
//! 0x34..0x36   section type (u16 LE)
//! 0x36..0x38   compression algorithm (u16 LE)
//! 0x38..0x40   payload length (u64 LE)
//! 0x40..       payload
//! ```

use crate::bytes::{
    le, lemma_le_fits, lemma_le_to_le, lemma_to_le, push_le, read_le, to_le,
};
use crate::error::{Error, ErrorView, outcome};
use crate::format::types::{Compression, SectionType};
use vstd::arithmetic::power2::*;
use vstd::prelude::*;

verus! {

/// On-disk magic for every section header.
pub const MAGIC: [u8; 6] = [0x44, 0x57, 0x41, 0x52, 0x46, 0x53];

/// Format version this build supports.
pub const SUPPORTED_MAJOR: u8 = 2;

/// Highest minor version this build accepts when reading.
///
/// A reader accepts any minor version up to the highest it knows.
/// Accepting 6 ahead of the first writer that produces it means those
/// images stay readable here.
pub const SUPPORTED_MINOR: u8 = 6;

/// Minor version this build writes.
///
/// Deliberately behind [`SUPPORTED_MINOR`]: the accepted version is
/// separate from the written one so a writer does not lock out readers
/// that predate the bump.
pub const WRITTEN_MINOR: u8 = 5;

/// Size of a section header in bytes.
pub const HEADER_LEN: usize = 64;

/// Byte offset where the SHA-512/256 hash coverage begins.
pub const SHA_COVER_START: usize = 0x28;

/// Byte offset where the XXH3-64 hash coverage begins.
pub const XXH_COVER_START: usize = 0x30;

/// The magic bytes.
pub open spec fn magic() -> Seq<u8> {
    seq![0x44u8, 0x57, 0x41, 0x52, 0x46, 0x53]
}

/// What a [`SectionHeader`] records.
#[verifier::ext_equal]
pub struct HeaderView {
    pub major: u8,
    pub minor: u8,
    pub sha512_256: Seq<u8>,
    pub xxh3_64: u64,
    pub number: u32,
    pub section_type: SectionType,
    pub compression: Compression,
    pub payload_len: u64,
}

impl HeaderView {
    /// Header plus payload, saturated.
    pub open spec fn section_len(self) -> u64 {
        if 64 + self.payload_len > u64::MAX {
            u64::MAX
        } else {
            (64 + self.payload_len) as u64
        }
    }

    /// The 64 bytes on disk.
    pub open spec fn bytes(self) -> Seq<u8> {
        magic() + seq![self.major, self.minor] + self.sha512_256 + to_le(self.xxh3_64 as nat, 8)
            + to_le(self.number as nat, 4) + to_le(self.section_type.code() as nat, 2) + to_le(
            self.compression.code() as nat,
            2,
        ) + to_le(self.payload_len as nat, 8)
    }
}

/// What parsing a header at file offset `offset` answers.
pub open spec fn parse_header(bytes: Seq<u8>, offset: u64) -> Result<HeaderView, ErrorView> {
    if bytes.len() < 64 {
        Err(ErrorView::TruncatedHeader { offset })
    } else if bytes.subrange(0, 6) != magic() {
        Err(ErrorView::BadMagic { offset })
    } else if bytes[6] != SUPPORTED_MAJOR || bytes[7] > SUPPORTED_MINOR {
        Err(ErrorView::UnsupportedVersion { major: bytes[6], minor: bytes[7] })
    } else {
        Ok(
            HeaderView {
                major: bytes[6],
                minor: bytes[7],
                sha512_256: bytes.subrange(0x08, 0x28),
                xxh3_64: le(bytes.subrange(0x28, 0x30)) as u64,
                number: le(bytes.subrange(0x30, 0x34)) as u32,
                section_type: SectionType::of_code(le(bytes.subrange(0x34, 0x36)) as u16),
                compression: Compression::of_code(le(bytes.subrange(0x36, 0x38)) as u16),
                payload_len: le(bytes.subrange(0x38, 0x40)) as u64,
            },
        )
    }
}

/// Parsing what was written gives the header back.
pub proof fn lemma_header_roundtrip(h: HeaderView, offset: u64)
    requires
        h.major == SUPPORTED_MAJOR,
        h.minor <= SUPPORTED_MINOR,
        h.sha512_256.len() == 32,
        h.section_type.canonical(),
        h.compression.canonical(),
    ensures
        h.bytes().len() == 64,
        parse_header(h.bytes(), offset) == Ok::<HeaderView, ErrorView>(h),
{
    let b = h.bytes();
    lemma_to_le(h.xxh3_64 as nat, 8);
    lemma_to_le(h.number as nat, 4);
    lemma_to_le(h.section_type.code() as nat, 2);
    lemma_to_le(h.compression.code() as nat, 2);
    lemma_to_le(h.payload_len as nat, 8);
    lemma2_to64();
    lemma2_to64_rest();
    assert(b.subrange(0, 6) =~= magic());
    assert(b.subrange(0x08, 0x28) =~= h.sha512_256);
    assert(b.subrange(0x28, 0x30) =~= to_le(h.xxh3_64 as nat, 8));
    assert(b.subrange(0x30, 0x34) =~= to_le(h.number as nat, 4));
    assert(b.subrange(0x34, 0x36) =~= to_le(h.section_type.code() as nat, 2));
    assert(b.subrange(0x36, 0x38) =~= to_le(h.compression.code() as nat, 2));
    assert(b.subrange(0x38, 0x40) =~= to_le(h.payload_len as nat, 8));
}

/// Writing a parsed header gives its 64 bytes back.
pub proof fn lemma_header_bytes_roundtrip(bytes: Seq<u8>, offset: u64)
    requires
        parse_header(bytes, offset) is Ok,
    ensures
        parse_header(bytes, offset)->Ok_0.bytes() == bytes.take(64),
{
    let h = parse_header(bytes, offset)->Ok_0;
    lemma_le_fits(bytes.subrange(0x28, 0x30));
    lemma_le_fits(bytes.subrange(0x30, 0x34));
    lemma_le_fits(bytes.subrange(0x34, 0x36));
    lemma_le_fits(bytes.subrange(0x36, 0x38));
    lemma_le_fits(bytes.subrange(0x38, 0x40));
    lemma_le_to_le(bytes.subrange(0x28, 0x30));
    lemma_le_to_le(bytes.subrange(0x30, 0x34));
    lemma_le_to_le(bytes.subrange(0x34, 0x36));
    lemma_le_to_le(bytes.subrange(0x36, 0x38));
    lemma_le_to_le(bytes.subrange(0x38, 0x40));
    assert(bytes.take(64) =~= bytes.subrange(0, 6) + seq![bytes[6], bytes[7]] + bytes.subrange(
        0x08,
        0x28,
    ) + bytes.subrange(0x28, 0x30) + bytes.subrange(0x30, 0x34) + bytes.subrange(0x34, 0x36)
        + bytes.subrange(0x36, 0x38) + bytes.subrange(0x38, 0x40));
}

/// A parsed section header. Fields are exactly the bytes recorded in
/// the image; integrity hashes are validated separately.
#[derive(Debug, Clone, Copy)]
pub struct SectionHeader {
    /// Format major version. Major mismatch is unsupported.
    pub major: u8,
    /// Format minor version. Newer minors may be rejected.
    pub minor: u8,
    /// SHA-512/256 over bytes from offset 0x28 to the end of the
    /// payload.
    pub sha512_256: [u8; 32],
    /// XXH3-64 (little-endian u64) over bytes from offset 0x30 to the
    /// end of the payload.
    pub xxh3_64: u64,
    /// Monotonically increasing section number assigned by the writer.
    pub number: u32,
    /// Section type.
    pub section_type: SectionType,
    /// Compression algorithm applied to the payload.
    pub compression: Compression,
    /// Length of the payload immediately following the header.
    pub payload_len: u64,
}

impl View for SectionHeader {
    type V = HeaderView;

    open spec fn view(&self) -> HeaderView {
        HeaderView {
            major: self.major,
            minor: self.minor,
            sha512_256: self.sha512_256@,
            xxh3_64: self.xxh3_64,
            number: self.number,
            section_type: self.section_type,
            compression: self.compression,
            payload_len: self.payload_len,
        }
    }
}

/// Whether the magic stands at `bytes[at..]`.
pub fn has_magic(bytes: &[u8], at: usize) -> (r: bool)
    requires
        at + 6 <= bytes.len(),
    ensures
        r == (bytes@.subrange(at as int, at + 6) == magic()),
{
    let r: bool = bytes[at] == 0x44 && bytes[at + 1] == 0x57 && bytes[at + 2] == 0x41 && bytes[at
        + 3] == 0x52 && bytes[at + 4] == 0x46 && bytes[at + 5] == 0x53;
    proof {
        let w = bytes@.subrange(at as int, at + 6);
        if r {
            assert(w =~= magic());
        } else if w == magic() {
            assert(w[0] == magic()[0] && w[1] == magic()[1] && w[2] == magic()[2] && w[3]
                == magic()[3] && w[4] == magic()[4] && w[5] == magic()[5]);
        }
    }
    r
}

impl SectionHeader {
    /// Parse a header from a 64-byte slice.
    ///
    /// `offset` is the byte position in the source image where the
    /// header begins; it is only used to enrich errors.
    pub fn parse(bytes: &[u8], offset: u64) -> (r: Result<Self, Error>)
        ensures
            outcome(r, parse_header(bytes@, offset)),
    {
        if bytes.len() < HEADER_LEN {
            return Err(Error::TruncatedHeader { offset });
        }
        if !has_magic(bytes, 0) {
            return Err(Error::BadMagic { offset });
        }
        let major: u8 = bytes[6];
        let minor: u8 = bytes[7];
        if major != SUPPORTED_MAJOR || minor > SUPPORTED_MINOR {
            return Err(Error::UnsupportedVersion { major, minor });
        }
        let mut sha512_256: [u8; 32] = [0u8;32];
        let mut i: usize = 0;
        while i < 32
            invariant
                i <= 32,
                bytes.len() >= 64,
                sha512_256@.len() == 32,
                forall|j: int| 0 <= j < i ==> sha512_256@[j] == bytes@[8 + j],
            decreases 32 - i,
        {
            sha512_256[i] = bytes[8 + i];
            i = i + 1;
        }
        proof {
            assert(sha512_256@ =~= bytes@.subrange(0x08, 0x28));
            lemma_le_fits(bytes@.subrange(0x30, 0x34));
            lemma_le_fits(bytes@.subrange(0x34, 0x36));
            lemma_le_fits(bytes@.subrange(0x36, 0x38));
        }
        let number: u64 = read_le(bytes, 0x30, 4);
        let st_raw: u64 = read_le(bytes, 0x34, 2);
        let cp_raw: u64 = read_le(bytes, 0x36, 2);
        Ok(
            Self {
                major,
                minor,
                sha512_256,
                xxh3_64: read_le(bytes, 0x28, 8),
                number: number as u32,
                section_type: SectionType::from_u16(st_raw as u16),
                compression: Compression::from_u16(cp_raw as u16),
                payload_len: read_le(bytes, 0x38, 8),
            },
        )
    }

    /// Total length of this section on disk (header + payload).
    /// Returns `u64::MAX` if `HEADER_LEN + payload_len` would
    /// overflow; callers chain through `checked_add` to surface the
    /// out-of-bounds case as a parse error instead of a panic.
    pub fn section_len(&self) -> (r: u64)
        ensures
            r == self@.section_len(),
    {
        (HEADER_LEN as u64).saturating_add(self.payload_len)
    }

    /// Serialize this header back to its 64-byte on-disk form. Hashes
    /// and version fields are written verbatim.
    pub fn write(&self) -> (r: [u8; 64])
        ensures
            r@ == self@.bytes(),
    {
        let mut out: Vec<u8> = Vec::new();
        out.push(0x44);
        out.push(0x57);
        out.push(0x41);
        out.push(0x52);
        out.push(0x46);
        out.push(0x53);
        out.push(self.major);
        out.push(self.minor);
        assert(out@ =~= magic() + seq![self.major, self.minor]);
        out.extend_from_slice(self.sha512_256.as_slice());
        push_le(&mut out, self.xxh3_64, 8);
        push_le(&mut out, self.number as u64, 4);
        push_le(&mut out, self.section_type.as_u16() as u64, 2);
        push_le(&mut out, self.compression.as_u16() as u64, 2);
        push_le(&mut out, self.payload_len, 8);
        proof {
            lemma_to_le(self.xxh3_64 as nat, 8);
            lemma_to_le(self.number as nat, 4);
            lemma_to_le(self.section_type.code() as nat, 2);
            lemma_to_le(self.compression.code() as nat, 2);
            lemma_to_le(self.payload_len as nat, 8);
            assert(out@ =~= self@.bytes());
        }
        let mut buf: [u8; 64] = [0u8;64];
        let mut i: usize = 0;
        while i < 64
            invariant
                i <= 64,
                out@.len() == 64,
                buf@.len() == 64,
                forall|j: int| 0 <= j < i ==> buf@[j] == out@[j],
            decreases 64 - i,
        {
            buf[i] = out[i];
            i = i + 1;
        }
        assert(buf@ =~= out@);
        buf
    }
}

} // verus!
