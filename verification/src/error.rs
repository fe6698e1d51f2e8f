//! Crate-wide error type.
//!
//! Every fallible operation returns [`Result<T>`] with this enum. Each
//! variant carries enough context (offset, section, expected vs actual)
//! to diagnose the failure without needing to re-parse.

use crate::text::{Text, dec, hex};
use vstd::prelude::*;

verus! {

/// `std::io::Error`, carried through unopened.
#[verifier::external_type_specification]
#[verifier::external_body]
pub struct ExIoError(std::io::Error);

/// Convenience alias for `Result<T, rdwarfs::Error>`.
pub type Result<T> = std::result::Result<T, Error>;

/// All errors produced by this crate.
#[derive(Debug)]
#[non_exhaustive]
#[allow(inconsistent_fields)]
pub enum Error {
    /// Underlying I/O failure (file open, read, write, seek).
    Io(std::io::Error),
    /// The input is shorter than a complete section header (64 bytes)
    /// at the given offset.
    TruncatedHeader {
        /// Byte offset at which the header was expected.
        offset: u64,
    },
    /// The section header magic at the given offset is not `DWARFS`.
    BadMagic {
        /// Byte offset at which the magic was checked.
        offset: u64,
    },
    /// The input does not contain a DwarFS section header anywhere in
    /// the scanned range.
    NotADwarfsImage,
    /// The format version is newer than this build supports.
    UnsupportedVersion {
        /// Major version recorded in the section header.
        major: u8,
        /// Minor version recorded in the section header.
        minor: u8,
    },
    /// A section claims a payload length that runs past the end of the
    /// image.
    TruncatedSection {
        /// Section number from the header.
        number: u32,
        /// Byte offset of the truncated section header.
        offset: u64,
    },
    /// The section index is malformed (wrong tail entry, unsorted
    /// offsets, or self-listing mismatch).
    CorruptSectionIndex {
        /// Short human-readable reason describing the violation.
        reason: &'static str,
    },
    /// A section's recorded hash does not match the bytes on disk.
    IntegrityMismatch {
        /// Section number from the header.
        number: u32,
        /// Which hash failed (`"xxh3"` or `"sha512_256"`).
        kind: &'static str,
    },
    /// A field declared a count or length that exceeds the configured
    /// cap. Used to defend the read path against hostile inputs.
    CapExceeded {
        /// Field or context where the cap was applied.
        field: &'static str,
        /// Cap that was exceeded.
        cap: u64,
        /// Offending value seen in the input.
        value: u64,
    },
    /// The requested codec was not compiled into this build.
    CodecDisabled {
        /// Human-readable codec name.
        codec: &'static str,
    },
    /// The codec is recognized but is not yet implemented in this
    /// build.
    CodecUnimplemented {
        /// Human-readable codec name.
        codec: &'static str,
    },
    /// A read asked for bytes the source cannot supply.
    SourceOutOfBounds {
        /// Offset the read started at.
        offset: u64,
        /// Number of bytes requested.
        len: u64,
        /// Total length of the source.
        source_len: u64,
    },
    /// The image declares a feature this build does not implement.
    ///
    /// A reader must refuse such an image rather than risk
    /// misinterpreting it.
    UnsupportedFeature {
        /// Feature name recorded in the metadata.
        name: String,
    },
    /// A section uses a compression algorithm this build does not
    /// recognise. The image still opens; only this section is
    /// undecodable.
    UnknownCompression {
        /// Raw algorithm value from the section header.
        value: u16,
    },
    /// A codec failed to decode its payload (framing, corruption,
    /// truncation).
    Decode {
        /// Human-readable codec name.
        codec: &'static str,
        /// Short human-readable description of the failure.
        message: String,
    },
    /// A codec failed to encode the input.
    Encode {
        /// Human-readable codec name.
        codec: &'static str,
        /// Short human-readable description of the failure.
        message: String,
    },
}

/// What an [`Error`] says, with its texts as character sequences. The
/// contents of an I/O error are not modelled.
#[verifier::ext_equal]
#[allow(inconsistent_fields)]
pub enum ErrorView {
    Io,
    TruncatedHeader { offset: u64 },
    BadMagic { offset: u64 },
    NotADwarfsImage,
    UnsupportedVersion { major: u8, minor: u8 },
    TruncatedSection { number: u32, offset: u64 },
    CorruptSectionIndex { reason: Seq<char> },
    IntegrityMismatch { number: u32, kind: Seq<char> },
    CapExceeded { field: Seq<char>, cap: u64, value: u64 },
    CodecDisabled { codec: Seq<char> },
    CodecUnimplemented { codec: Seq<char> },
    SourceOutOfBounds { offset: u64, len: u64, source_len: u64 },
    UnsupportedFeature { name: Seq<char> },
    UnknownCompression { value: u16 },
    Decode { codec: Seq<char>, message: Seq<char> },
    Encode { codec: Seq<char>, message: Seq<char> },
}

impl View for Error {
    type V = ErrorView;

    open spec fn view(&self) -> ErrorView {
        match *self {
            Error::Io(_) => ErrorView::Io,
            Error::TruncatedHeader { offset } => ErrorView::TruncatedHeader { offset },
            Error::BadMagic { offset } => ErrorView::BadMagic { offset },
            Error::NotADwarfsImage => ErrorView::NotADwarfsImage,
            Error::UnsupportedVersion { major, minor } => ErrorView::UnsupportedVersion {
                major,
                minor,
            },
            Error::TruncatedSection { number, offset } => ErrorView::TruncatedSection {
                number,
                offset,
            },
            Error::CorruptSectionIndex { reason } => ErrorView::CorruptSectionIndex {
                reason: reason@,
            },
            Error::IntegrityMismatch { number, kind } => ErrorView::IntegrityMismatch {
                number,
                kind: kind@,
            },
            Error::CapExceeded { field, cap, value } => ErrorView::CapExceeded {
                field: field@,
                cap,
                value,
            },
            Error::CodecDisabled { codec } => ErrorView::CodecDisabled { codec: codec@ },
            Error::CodecUnimplemented { codec } => ErrorView::CodecUnimplemented { codec: codec@ },
            Error::SourceOutOfBounds { offset, len, source_len } => ErrorView::SourceOutOfBounds {
                offset,
                len,
                source_len,
            },
            Error::UnsupportedFeature { name } => ErrorView::UnsupportedFeature { name: name@ },
            Error::UnknownCompression { value } => ErrorView::UnknownCompression { value },
            Error::Decode { codec, message } => ErrorView::Decode {
                codec: codec@,
                message: message@,
            },
            Error::Encode { codec, message } => ErrorView::Encode {
                codec: codec@,
                message: message@,
            },
        }
    }
}

impl ErrorView {
    /// The text shown to a user. Not meaningful for `Io`, whose text the
    /// operating system supplies.
    pub open spec fn text(self) -> Seq<char> {
        match self {
            ErrorView::Io => "io error: "@,
            ErrorView::TruncatedHeader { offset } => "truncated section header at offset 0x"@ + hex(
                offset as nat,
                1,
            ),
            ErrorView::BadMagic { offset } => "bad section magic at offset 0x"@ + hex(
                offset as nat,
                1,
            ),
            ErrorView::NotADwarfsImage => "not a dwarfs image"@,
            ErrorView::UnsupportedVersion { major, minor } => "unsupported dwarfs version "@ + dec(
                major as nat,
            ) + "."@ + dec(minor as nat),
            ErrorView::TruncatedSection { number, offset } => "truncated section #"@ + dec(
                number as nat,
            ) + " at offset 0x"@ + hex(offset as nat, 1),
            ErrorView::CorruptSectionIndex { reason } => "corrupt section index: "@ + reason,
            ErrorView::IntegrityMismatch { number, kind } => "integrity mismatch in section #"@
                + dec(number as nat) + " ("@ + kind + ")"@,
            ErrorView::CapExceeded { field, cap, value } => "value "@ + dec(value as nat)
                + " exceeds cap "@ + dec(cap as nat) + " for "@ + field,
            ErrorView::CodecDisabled { codec } => "compression codec "@ + codec
                + " is not enabled"@,
            ErrorView::CodecUnimplemented { codec } => "compression codec "@ + codec
                + " is not implemented"@,
            ErrorView::SourceOutOfBounds { offset, len, source_len } => "read of "@ + dec(
                len as nat,
            ) + " bytes at offset "@ + dec(offset as nat) + " exceeds source of "@ + dec(
                source_len as nat,
            ) + " bytes"@,
            ErrorView::UnsupportedFeature { name } => "unsupported filesystem feature "@ + name,
            ErrorView::UnknownCompression { value } => "unknown compression algorithm "@ + dec(
                value as nat,
            ),
            ErrorView::Decode { codec, message } => "decode error in "@ + codec + ": "@ + message,
            ErrorView::Encode { codec, message } => "encode error in "@ + codec + ": "@ + message,
        }
    }
}

/// The `Display` text of an I/O error. The operating system words it, so
/// nothing is promised of it.
#[verifier::external_body]
fn io_error_text(e: &std::io::Error) -> String {
    format!("{e}")
}

/// Texts one behind the other.
pub open spec fn flat(parts: Seq<Seq<char>>) -> Seq<char>
    decreases parts.len(),
{
    if parts.len() == 0 {
        Seq::empty()
    } else {
        flat(parts.drop_last()) + parts.last()
    }
}

proof fn lemma_flat_push(parts: Seq<Seq<char>>, last: Seq<char>)
    ensures
        flat(parts.push(last)) == flat(parts) + last,
{
    assert(parts.push(last).drop_last() =~= parts);
}

proof fn lemma_flat(a: Seq<char>, b: Seq<char>, c: Seq<char>, d: Seq<char>, e: Seq<char>, f: Seq<
    char,
>, g: Seq<char>)
    ensures
        flat(seq![a, b]) == a + b,
        flat(seq![a, b, c]) == a + b + c,
        flat(seq![a, b, c, d]) == a + b + c + d,
        flat(seq![a, b, c, d, e]) == a + b + c + d + e,
        flat(seq![a, b, c, d, e, f]) == a + b + c + d + e + f,
        flat(seq![a, b, c, d, e, f, g]) == a + b + c + d + e + f + g,
{
    let none = Seq::<Seq<char>>::empty();
    assert(flat(none) == Seq::<char>::empty());
    assert(flat(none) + a =~= a);
    lemma_flat_push(none, a);
    lemma_flat_push(none.push(a), b);
    lemma_flat_push(none.push(a).push(b), c);
    lemma_flat_push(none.push(a).push(b).push(c), d);
    lemma_flat_push(none.push(a).push(b).push(c).push(d), e);
    lemma_flat_push(none.push(a).push(b).push(c).push(d).push(e), f);
    lemma_flat_push(none.push(a).push(b).push(c).push(d).push(e).push(f), g);
    let two = none.push(a).push(b);
    assert(seq![a, b] =~= two);
    assert(seq![a, b, c] =~= two.push(c));
    assert(seq![a, b, c, d] =~= two.push(c).push(d));
    assert(seq![a, b, c, d, e] =~= two.push(c).push(d).push(e));
    assert(seq![a, b, c, d, e, f] =~= two.push(c).push(d).push(e).push(f));
    assert(seq![a, b, c, d, e, f, g] =~= two.push(c).push(d).push(e).push(f).push(g));
}

/// A message carries what its failure recorded, each part in its place:
/// numbers in decimal, offsets into an image in hexadecimal.
pub proof fn lemma_messages_carry_their_parts(
    offset: u64,
    number: u32,
    value: u64,
    cap: u64,
    version: (u8, u8),
    codec: Seq<char>,
    text: Seq<char>,
)
    ensures
        (ErrorView::TruncatedHeader { offset }).text() == flat(
            seq!["truncated section header at offset 0x"@, hex(offset as nat, 1)],
        ),
        (ErrorView::BadMagic { offset }).text() == flat(
            seq!["bad section magic at offset 0x"@, hex(offset as nat, 1)],
        ),
        (ErrorView::UnsupportedVersion { major: version.0, minor: version.1 }).text() == flat(
            seq![
                "unsupported dwarfs version "@,
                dec(version.0 as nat),
                "."@,
                dec(version.1 as nat),
            ],
        ),
        (ErrorView::TruncatedSection { number, offset }).text() == flat(
            seq![
                "truncated section #"@,
                dec(number as nat),
                " at offset 0x"@,
                hex(offset as nat, 1),
            ],
        ),
        (ErrorView::CorruptSectionIndex { reason: text }).text() == flat(
            seq!["corrupt section index: "@, text],
        ),
        (ErrorView::IntegrityMismatch { number, kind: text }).text() == flat(
            seq!["integrity mismatch in section #"@, dec(number as nat), " ("@, text, ")"@],
        ),
        (ErrorView::CapExceeded { field: text, cap, value }).text() == flat(
            seq![
                "value "@,
                dec(value as nat),
                " exceeds cap "@,
                dec(cap as nat),
                " for "@,
                text,
            ],
        ),
        (ErrorView::CodecDisabled { codec }).text() == flat(
            seq!["compression codec "@, codec, " is not enabled"@],
        ),
        (ErrorView::CodecUnimplemented { codec }).text() == flat(
            seq!["compression codec "@, codec, " is not implemented"@],
        ),
        (ErrorView::SourceOutOfBounds { offset, len: value, source_len: cap }).text() == flat(
            seq![
                "read of "@,
                dec(value as nat),
                " bytes at offset "@,
                dec(offset as nat),
                " exceeds source of "@,
                dec(cap as nat),
                " bytes"@,
            ],
        ),
        (ErrorView::UnsupportedFeature { name: text }).text() == flat(
            seq!["unsupported filesystem feature "@, text],
        ),
        (ErrorView::Decode { codec, message: text }).text() == flat(
            seq!["decode error in "@, codec, ": "@, text],
        ),
        (ErrorView::Encode { codec, message: text }).text() == flat(
            seq!["encode error in "@, codec, ": "@, text],
        ),
{
    let at = hex(offset as nat, 1);
    let n = dec(number as nat);
    let v = dec(value as nat);
    let c = dec(cap as nat);
    lemma_flat("truncated section header at offset 0x"@, at, n, n, n, n, n);
    lemma_flat("bad section magic at offset 0x"@, at, n, n, n, n, n);
    lemma_flat(
        "unsupported dwarfs version "@,
        dec(version.0 as nat),
        "."@,
        dec(version.1 as nat),
        n,
        n,
        n,
    );
    lemma_flat("truncated section #"@, n, " at offset 0x"@, at, n, n, n);
    lemma_flat("corrupt section index: "@, text, n, n, n, n, n);
    lemma_flat("integrity mismatch in section #"@, n, " ("@, text, ")"@, n, n);
    lemma_flat("value "@, v, " exceeds cap "@, c, " for "@, text, n);
    lemma_flat("compression codec "@, codec, " is not enabled"@, n, n, n, n);
    lemma_flat("compression codec "@, codec, " is not implemented"@, n, n, n, n);
    lemma_flat(
        "read of "@,
        v,
        " bytes at offset "@,
        dec(offset as nat),
        " exceeds source of "@,
        c,
        " bytes"@,
    );
    lemma_flat("unsupported filesystem feature "@, text, n, n, n, n, n);
    lemma_flat("decode error in "@, codec, ": "@, text, n, n, n);
    lemma_flat("encode error in "@, codec, ": "@, text, n, n, n);
}

impl Error {
    /// The message shown to a user.
    pub fn to_string(&self) -> (r: String)
        ensures
            self@ !is Io ==> r@ == self@.text(),
            self@ is Io ==> "io error: "@.is_prefix_of(r@),
    {
        match self {
            Error::Io(e) => {
                let detail = io_error_text(e);
                Text::of("io error: ").str(detail.as_str()).done()
            },
            Error::TruncatedHeader { offset } => Text::of(
                "truncated section header at offset 0x",
            ).hex(*offset, 1).done(),
            Error::BadMagic { offset } => Text::of("bad section magic at offset 0x").hex(
                *offset,
                1,
            ).done(),
            Error::NotADwarfsImage => Text::of("not a dwarfs image").done(),
            Error::UnsupportedVersion { major, minor } => Text::of(
                "unsupported dwarfs version ",
            ).num(*major as u64).str(".").num(*minor as u64).done(),
            Error::TruncatedSection { number, offset } => Text::of("truncated section #").num(
                *number as u64,
            ).str(" at offset 0x").hex(*offset, 1).done(),
            Error::CorruptSectionIndex { reason } => Text::of("corrupt section index: ").str(
                reason,
            ).done(),
            Error::IntegrityMismatch { number, kind } => Text::of(
                "integrity mismatch in section #",
            ).num(*number as u64).str(" (").str(kind).str(")").done(),
            Error::CapExceeded { field, cap, value } => Text::of("value ").num(*value).str(
                " exceeds cap ",
            ).num(*cap).str(" for ").str(field).done(),
            Error::CodecDisabled { codec } => Text::of("compression codec ").str(codec).str(
                " is not enabled",
            ).done(),
            Error::CodecUnimplemented { codec } => Text::of("compression codec ").str(codec).str(
                " is not implemented",
            ).done(),
            Error::SourceOutOfBounds { offset, len, source_len } => Text::of("read of ").num(
                *len,
            ).str(" bytes at offset ").num(*offset).str(" exceeds source of ").num(
                *source_len,
            ).str(" bytes").done(),
            Error::UnsupportedFeature { name } => Text::of("unsupported filesystem feature ").str(
                name.as_str(),
            ).done(),
            Error::UnknownCompression { value } => Text::of("unknown compression algorithm ").num(
                *value as u64,
            ).done(),
            Error::Decode { codec, message } => Text::of("decode error in ").str(codec).str(
                ": ",
            ).str(message.as_str()).done(),
            Error::Encode { codec, message } => Text::of("encode error in ").str(codec).str(
                ": ",
            ).str(message.as_str()).done(),
        }
    }
}

/// Whether an executable outcome is the modelled one: the same value, or
/// an error that says the same.
pub open spec fn outcome<T: View>(
    r: std::result::Result<T, Error>,
    want: std::result::Result<T::V, ErrorView>,
) -> bool {
    match r {
        Ok(v) => want == Ok::<T::V, ErrorView>(v@),
        Err(e) => want == Err::<T::V, ErrorView>(e@),
    }
}

/// An executable outcome by what it says.
pub open spec fn viewed<T: View>(r: std::result::Result<T, Error>) -> std::result::Result<
    T::V,
    ErrorView,
> {
    match r {
        Ok(v) => Ok(v@),
        Err(e) => Err(e@),
    }
}

/// What a function of a byte source may answer: what it models, or an I/O
/// error when the source is not reliable.
pub open spec fn answers<V>(
    reliable: bool,
    got: std::result::Result<V, ErrorView>,
    want: std::result::Result<V, ErrorView>,
) -> bool {
    got == want || (!reliable && got == Err::<V, ErrorView>(ErrorView::Io))
}

/// A decode error with a fixed message.
pub fn decode_error(codec: &'static str, message: &str) -> (e: Error)
    ensures
        e@ == (ErrorView::Decode { codec: codec@, message: message@ }),
{
    Error::Decode { codec, message: message.to_owned() }
}

} // verus!
