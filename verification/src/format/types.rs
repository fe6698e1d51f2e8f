//! Section-type and compression-algorithm enums.

use crate::text::{Text, dec};
use vstd::prelude::*;

verus! {

/// Type of a DwarFS section, as recorded in the section header.
#[derive(Debug, Clone, Copy, PartialEq, Eq, Hash, Structural)]
pub enum SectionType {
    /// A block of file data. There can be any number of these, and
    /// they are referenced by chunks in the metadata.
    Block,
    /// The schema describing how to bit-unpack [`SectionType::MetadataV2`].
    /// Stored in Thrift compact encoding.
    MetadataV2Schema,
    /// The bulk Frozen2 metadata blob.
    MetadataV2,
    /// The section index. Must be last and uncompressed when present.
    SectionIndex,
    /// File-system history records. Purely informational, may appear
    /// zero or more times.
    History,
    /// A section type this build does not recognise.
    ///
    /// Readers ignore section types they do not know as long as the
    /// format minor version is unchanged, so an image carrying one still
    /// opens and every recognised section stays usable.
    Unknown(u16),
}

impl SectionType {
    /// The type a raw header value stands for.
    pub open spec fn of_code(value: u16) -> SectionType {
        if value == 0 {
            SectionType::Block
        } else if value == 7 {
            SectionType::MetadataV2Schema
        } else if value == 8 {
            SectionType::MetadataV2
        } else if value == 9 {
            SectionType::SectionIndex
        } else if value == 10 {
            SectionType::History
        } else {
            SectionType::Unknown(value)
        }
    }

    /// The raw header value.
    pub open spec fn code(self) -> u16 {
        match self {
            SectionType::Block => 0,
            SectionType::MetadataV2Schema => 7,
            SectionType::MetadataV2 => 8,
            SectionType::SectionIndex => 9,
            SectionType::History => 10,
            SectionType::Unknown(value) => value,
        }
    }

    /// `Unknown` stands only for values without a name.
    pub open spec fn canonical(self) -> bool {
        SectionType::of_code(self.code()) == self
    }

    /// Interpret a raw header value.
    ///
    /// Values this build does not recognise map to
    /// [`SectionType::Unknown`] rather than failing.
    pub fn from_u16(value: u16) -> (r: Self)
        ensures
            r == SectionType::of_code(value),
    {
        match value {
            0 => SectionType::Block,
            7 => SectionType::MetadataV2Schema,
            8 => SectionType::MetadataV2,
            9 => SectionType::SectionIndex,
            10 => SectionType::History,
            other => SectionType::Unknown(other),
        }
    }

    /// The numeric value stored in the section header.
    pub fn as_u16(self) -> (r: u16)
        ensures
            r == self.code(),
    {
        match self {
            SectionType::Block => 0,
            SectionType::MetadataV2Schema => 7,
            SectionType::MetadataV2 => 8,
            SectionType::SectionIndex => 9,
            SectionType::History => 10,
            SectionType::Unknown(value) => value,
        }
    }

    /// The type, spelled out.
    pub open spec fn text(self) -> Seq<char> {
        match self {
            SectionType::Block => "Block"@,
            SectionType::MetadataV2Schema => "MetadataV2Schema"@,
            SectionType::MetadataV2 => "MetadataV2"@,
            SectionType::SectionIndex => "SectionIndex"@,
            SectionType::History => "History"@,
            SectionType::Unknown(value) => "Unknown("@ + dec(value as nat) + ")"@,
        }
    }

    /// The type, spelled out.
    pub fn describe(&self) -> (r: String)
        ensures
            r@ == self.text(),
    {
        match self {
            SectionType::Block => Text::of("Block").done(),
            SectionType::MetadataV2Schema => Text::of("MetadataV2Schema").done(),
            SectionType::MetadataV2 => Text::of("MetadataV2").done(),
            SectionType::SectionIndex => Text::of("SectionIndex").done(),
            SectionType::History => Text::of("History").done(),
            SectionType::Unknown(value) => Text::of("Unknown(").num(*value as u64).str(")").done(),
        }
    }
}

/// A header value survives being interpreted.
pub proof fn lemma_section_type_roundtrip(value: u16)
    ensures
        SectionType::of_code(value).code() == value,
        SectionType::of_code(value).canonical(),
{
}

/// Compression algorithm used for a section payload.
///
/// `Flac` and `Ricepp` are accepted by the enum so an image can be
/// inspected even though no decoder for them is available.
#[derive(Debug, Clone, Copy, PartialEq, Eq, Hash, Structural)]
pub enum Compression {
    /// Stored as-is.
    Stored,
    /// LZMA, framed as an xz container stream.
    Lzma,
    /// Zstandard, one-shot frame carrying content size in the frame
    /// header.
    Zstd,
    /// LZ4 block, prefixed by a 4-byte little-endian uncompressed
    /// length.
    Lz4,
    /// LZ4HC block, framed identically to [`Compression::Lz4`].
    Lz4Hc,
    /// Brotli stream, prefixed by an unsigned LEB128 uncompressed
    /// length.
    Brotli,
    /// FLAC stream for audio-aware categorization.
    Flac,
    /// RICEPP stream for integer-aware categorization.
    Ricepp,
    /// An algorithm this build does not recognise.
    ///
    /// Carrying the raw value keeps an image openable when only some
    /// of its sections use a future codec. Decoding such a section
    /// fails; decoding every other section still works.
    Unknown(u16),
}

impl Compression {
    /// The algorithm a raw header value stands for.
    pub open spec fn of_code(value: u16) -> Compression {
        if value == 0 {
            Compression::Stored
        } else if value == 1 {
            Compression::Lzma
        } else if value == 2 {
            Compression::Zstd
        } else if value == 3 {
            Compression::Lz4
        } else if value == 4 {
            Compression::Lz4Hc
        } else if value == 5 {
            Compression::Brotli
        } else if value == 6 {
            Compression::Flac
        } else if value == 7 {
            Compression::Ricepp
        } else {
            Compression::Unknown(value)
        }
    }

    /// The raw header value.
    pub open spec fn code(self) -> u16 {
        match self {
            Compression::Stored => 0,
            Compression::Lzma => 1,
            Compression::Zstd => 2,
            Compression::Lz4 => 3,
            Compression::Lz4Hc => 4,
            Compression::Brotli => 5,
            Compression::Flac => 6,
            Compression::Ricepp => 7,
            Compression::Unknown(value) => value,
        }
    }

    /// `Unknown` stands only for values without a name.
    pub open spec fn canonical(self) -> bool {
        Compression::of_code(self.code()) == self
    }

    /// Interpret a raw header value.
    ///
    /// Values this build does not recognise map to
    /// [`Compression::Unknown`] rather than failing.
    pub fn from_u16(value: u16) -> (r: Self)
        ensures
            r == Compression::of_code(value),
    {
        match value {
            0 => Compression::Stored,
            1 => Compression::Lzma,
            2 => Compression::Zstd,
            3 => Compression::Lz4,
            4 => Compression::Lz4Hc,
            5 => Compression::Brotli,
            6 => Compression::Flac,
            7 => Compression::Ricepp,
            other => Compression::Unknown(other),
        }
    }

    /// The algorithm, spelled out.
    pub open spec fn text(self) -> Seq<char> {
        match self {
            Compression::Stored => "None"@,
            Compression::Lzma => "Lzma"@,
            Compression::Zstd => "Zstd"@,
            Compression::Lz4 => "Lz4"@,
            Compression::Lz4Hc => "Lz4Hc"@,
            Compression::Brotli => "Brotli"@,
            Compression::Flac => "Flac"@,
            Compression::Ricepp => "Ricepp"@,
            Compression::Unknown(value) => "Unknown("@ + dec(value as nat) + ")"@,
        }
    }

    /// The algorithm, spelled out.
    pub fn describe(&self) -> (r: String)
        ensures
            r@ == self.text(),
    {
        match self {
            Compression::Stored => Text::of("None").done(),
            Compression::Lzma => Text::of("Lzma").done(),
            Compression::Zstd => Text::of("Zstd").done(),
            Compression::Lz4 => Text::of("Lz4").done(),
            Compression::Lz4Hc => Text::of("Lz4Hc").done(),
            Compression::Brotli => Text::of("Brotli").done(),
            Compression::Flac => Text::of("Flac").done(),
            Compression::Ricepp => Text::of("Ricepp").done(),
            Compression::Unknown(value) => Text::of("Unknown(").num(*value as u64).str(")").done(),
        }
    }

    /// The numeric value stored in the section header.
    pub fn as_u16(self) -> (r: u16)
        ensures
            r == self.code(),
    {
        match self {
            Compression::Stored => 0,
            Compression::Lzma => 1,
            Compression::Zstd => 2,
            Compression::Lz4 => 3,
            Compression::Lz4Hc => 4,
            Compression::Brotli => 5,
            Compression::Flac => 6,
            Compression::Ricepp => 7,
            Compression::Unknown(value) => value,
        }
    }
}

/// A header value survives being interpreted.
pub proof fn lemma_compression_roundtrip(value: u16)
    ensures
        Compression::of_code(value).code() == value,
        Compression::of_code(value).canonical(),
{
}

} // verus!
