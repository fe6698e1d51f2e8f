//! ZSTD codec.
//!
//! Framing: a single ZSTD frame carrying the content size in its
//! frame header. The decoder streams its output, and the cap is checked
//! on the stream, so a hostile frame cannot allocate beyond the caller's
//! cap.

use std::io::Read;

use crate::compression::capped::{CappedWriter, cap_text};
use crate::error::{Error, ErrorView, viewed};
use vstd::prelude::*;

verus! {

/// The first `n` bytes that a ZSTD stream decodes to, all of them when
/// there are fewer, or the decoder's complaint.
pub uninterp spec fn zstd_front_of(src: Seq<u8>, n: nat) -> Result<Seq<u8>, Seq<char>>;

/// `zstd::Decoder::with_buffer`, read to the end through `Read::take`,
/// named as a function of the input and the limit. At most `n` bytes come
/// out, and a longer read of the same input, where it succeeds, starts
/// with the same bytes and is longer only when the limit was reached.
#[verifier::external_body]
fn zstd_front(src: &[u8], n: u64) -> (r: Result<Vec<u8>, String>)
    ensures
        match r {
            Ok(v) => {
                &&& zstd_front_of(src@, n as nat) == Ok::<Seq<u8>, Seq<char>>(v@)
                &&& v@.len() <= n
                &&& forall|m: nat|
                    m >= n ==> match #[trigger] zstd_front_of(src@, m) {
                        Ok(all) => v@ == (if all.len() > n {
                            all.take(n as int)
                        } else {
                            all
                        }),
                        Err(_) => true,
                    }
            },
            Err(m) => zstd_front_of(src@, n as nat) == Err::<Seq<u8>, Seq<char>>(m@),
        },
{
    let mut out: Vec<u8> = Vec::new();
    ::zstd::Decoder::with_buffer(src)
        .and_then(|decoder| decoder.take(n).read_to_end(&mut out))
        .map_err(|e| e.to_string())?;
    Ok(out)
}

/// A decode failure of this codec.
pub open spec fn zstd_error(message: Seq<char>) -> ErrorView {
    ErrorView::Decode { codec: "zstd"@, message }
}

/// One byte more than the cap, as far as a 64-bit limit goes.
pub open spec fn past_cap(cap: nat) -> nat {
    if cap >= u64::MAX {
        u64::MAX as nat
    } else {
        cap + 1
    }
}

/// What decoding answers, given the first bytes of the stream up to one
/// past the cap.
pub open spec fn zstd_outcome(front: Result<Seq<u8>, Seq<char>>, cap: nat) -> Result<
    Seq<u8>,
    ErrorView,
> {
    match front {
        Ok(v) => if v.len() > cap {
            Err(zstd_error(cap_text(cap)))
        } else {
            Ok(v)
        },
        Err(m) => Err(zstd_error(m)),
    }
}

/// What decoding the front answers, given the first bytes of the stream.
pub open spec fn zstd_front_outcome(front: Result<Seq<u8>, Seq<char>>) -> Result<
    Seq<u8>,
    ErrorView,
> {
    match front {
        Ok(v) => Ok(v),
        Err(m) => Err(zstd_error(m)),
    }
}

/// Bound the decoder's output by `cap`.
pub fn finish(front: Result<Vec<u8>, String>, cap: usize) -> (r: Result<Vec<u8>, Error>)
    ensures
        match front {
            Ok(v) => if v@.len() > cap {
                r matches Err(e) && e@ == zstd_error(cap_text(cap as nat))
            } else {
                r matches Ok(w) && w@ == v@
            },
            Err(m) => r matches Err(e) && e@ == zstd_error(m@),
        },
{
    match front {
        Ok(v) => {
            let mut sink: CappedWriter = CappedWriter::with_expected_size(cap, v.len());
            match sink.write_all(v.as_slice()) {
                Ok(()) => {
                    let out: Vec<u8> = sink.into_inner();
                    assert(out@ =~= v@);
                    Ok(out)
                },
                Err(message) => Err(Error::Decode { codec: "zstd", message }),
            }
        },
        Err(message) => Err(Error::Decode { codec: "zstd", message }),
    }
}

/// Decode a ZSTD payload of at most `cap` bytes.
pub fn decompress(src: &[u8], cap: usize) -> (r: Result<Vec<u8>, Error>)
    ensures
        viewed(r) == zstd_outcome(zstd_front_of(src@, past_cap(cap as nat)), cap as nat),
        r matches Ok(v) ==> v@.len() <= cap,
{
    finish(zstd_front(src, (cap as u64).saturating_add(1)), cap)
}

/// Decode `needed` bytes from the front of the stream, or all of it when
/// it is shorter.
pub fn decompress_prefix(src: &[u8], needed: usize) -> (r: Result<Vec<u8>, Error>)
    ensures
        viewed(r) == zstd_front_outcome(zstd_front_of(src@, needed as nat)),
        r matches Ok(p) ==> forall|cap: nat|
            needed <= cap <= usize::MAX ==> match #[trigger] zstd_outcome(
                zstd_front_of(src@, past_cap(cap)),
                cap,
            ) {
                Ok(all) => p@ == (if all.len() > needed {
                    all.take(needed as int)
                } else {
                    all
                }),
                Err(_) => true,
            },
{
    match zstd_front(src, needed as u64) {
        Ok(v) => Ok(v),
        Err(message) => Err(Error::Decode { codec: "zstd", message }),
    }
}

} // verus!
