//! One entry point for every codec.

use crate::compression::brotli::{self, brotli_decoded};
use crate::compression::lz4::{self, lz4_decoded};
use crate::compression::lzma::{self, lzma_front_outcome, lzma_outcome, xz_front_of};
use crate::compression::none::{self, stored};
use crate::compression::zstd::{
    self, past_cap, zstd_front_of, zstd_front_outcome, zstd_outcome,
};
use crate::error::{Error, ErrorView, viewed};
use crate::format::types::Compression;
use vstd::prelude::*;

verus! {

/// The name of a codec.
pub open spec fn name_of(codec: Compression) -> Seq<char> {
    match codec {
        Compression::Stored => "none"@,
        Compression::Lzma => "lzma"@,
        Compression::Zstd => "zstd"@,
        Compression::Lz4 => "lz4"@,
        Compression::Lz4Hc => "lz4hc"@,
        Compression::Brotli => "brotli"@,
        Compression::Flac => "flac"@,
        Compression::Ricepp => "ricepp"@,
        Compression::Unknown(_) => "unknown"@,
    }
}

/// What decoding a payload answers.
pub open spec fn decoded(codec: Compression, src: Seq<u8>, cap: nat) -> Result<
    Seq<u8>,
    ErrorView,
> {
    match codec {
        Compression::Stored => stored(src, cap),
        Compression::Zstd => zstd_outcome(zstd_front_of(src, past_cap(cap)), cap),
        Compression::Lzma => lzma_outcome(xz_front_of(src, past_cap(cap)), cap),
        Compression::Lz4 => lz4_decoded(src, cap),
        Compression::Lz4Hc => lz4_decoded(src, cap),
        Compression::Brotli => brotli_decoded(src, cap),
        Compression::Flac => Err(ErrorView::CodecUnimplemented { codec: "flac"@ }),
        Compression::Ricepp => Err(ErrorView::CodecUnimplemented { codec: "ricepp"@ }),
        Compression::Unknown(value) => Err(ErrorView::UnknownCompression { value }),
    }
}

/// What decoding the front of a payload answers; nothing when the codec
/// cannot stop early.
pub open spec fn decoded_front(codec: Compression, src: Seq<u8>, needed: nat) -> Result<
    Option<Seq<u8>>,
    ErrorView,
> {
    match codec {
        Compression::Zstd => match zstd_front_outcome(zstd_front_of(src, needed)) {
            Ok(v) => Ok(Some(v)),
            Err(e) => Err(e),
        },
        Compression::Lzma => match lzma_front_outcome(xz_front_of(src, needed)) {
            Ok(v) => Ok(Some(v)),
            Err(e) => Err(e),
        },
        _ => Ok(None),
    }
}

/// Human-readable name for a [`Compression`] variant, used in error
/// messages.
pub fn codec_name(codec: Compression) -> (r: &'static str)
    ensures
        r@ == name_of(codec),
{
    match codec {
        Compression::Stored => "none",
        Compression::Lzma => "lzma",
        Compression::Zstd => "zstd",
        Compression::Lz4 => "lz4",
        Compression::Lz4Hc => "lz4hc",
        Compression::Brotli => "brotli",
        Compression::Flac => "flac",
        Compression::Ricepp => "ricepp",
        Compression::Unknown(_) => "unknown",
    }
}

/// What an optional byte vector holds.
pub open spec fn optional_vec(v: Option<Vec<u8>>) -> Option<Seq<u8>> {
    match v {
        Some(b) => Some(b@),
        None => None,
    }
}

/// Decode at least `needed` bytes from the front of a payload.
///
/// Returns `None` when the codec cannot stop early, in which case the
/// caller decodes the whole payload. The result is never shorter than
/// `needed` unless the payload ends first: where a decode of the whole
/// payload succeeds, the result is its first `needed` bytes.
pub fn decompress_prefix(codec: Compression, src: &[u8], needed: usize) -> (r: Result<
    Option<Vec<u8>>,
    Error,
>)
    ensures
        match r {
            Ok(v) => decoded_front(codec, src@, needed as nat) == Ok::<
                Option<Seq<u8>>,
                ErrorView,
            >(optional_vec(v)),
            Err(e) => decoded_front(codec, src@, needed as nat) == Err::<
                Option<Seq<u8>>,
                ErrorView,
            >(e@),
        },
        r matches Ok(Some(p)) ==> forall|cap: nat|
            needed <= cap <= usize::MAX ==> match #[trigger] decoded(codec, src@, cap) {
                Ok(all) => p@ == (if all.len() > needed {
                    all.take(needed as int)
                } else {
                    all
                }),
                Err(_) => true,
            },
{
    match codec {
        Compression::Zstd => {
            let v: Vec<u8> = zstd::decompress_prefix(src, needed)?;
            Ok(Some(v))
        },
        Compression::Lzma => {
            let v: Vec<u8> = lzma::decompress_prefix(src, needed)?;
            Ok(Some(v))
        },
        // A stored payload is already a slice, and lz4 decodes a whole
        // block in one call, so neither gains anything from stopping
        // early.
        _ => Ok(None),
    }
}

/// Decode a compressed section payload.
///
/// `cap` is the maximum number of decoded bytes the call may produce;
/// any codec output beyond `cap` returns an [`Error::Decode`]. The cap
/// is the only memory bound on the decode path.
pub fn decompress(codec: Compression, src: &[u8], cap: usize) -> (r: Result<Vec<u8>, Error>)
    ensures
        viewed(r) == decoded(codec, src@, cap as nat),
        r matches Ok(v) ==> v@.len() <= cap,
{
    match codec {
        Compression::Stored => none::decompress(src, cap),
        Compression::Zstd => zstd::decompress(src, cap),
        Compression::Lzma => lzma::decompress(src, cap),
        Compression::Lz4 => lz4::decompress(src, cap),
        Compression::Lz4Hc => lz4::decompress(src, cap),
        Compression::Brotli => brotli::decompress(src, cap),
        Compression::Flac => Err(Error::CodecUnimplemented { codec: "flac" }),
        Compression::Ricepp => Err(Error::CodecUnimplemented { codec: "ricepp" }),
        Compression::Unknown(value) => Err(Error::UnknownCompression { value }),
    }
}

} // verus!
