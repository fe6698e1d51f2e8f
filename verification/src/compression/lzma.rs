//! LZMA codec, framed as an xz container stream.

use std::io::Read;

use crate::compression::capped::{CappedWriter, cap_text};
use crate::compression::zstd::past_cap;
use crate::error::{Error, ErrorView, viewed};
use vstd::prelude::*;

verus! {

/// The first `n` bytes that an xz stream decodes to, all of them when
/// there are fewer, or the decoder's complaint.
pub uninterp spec fn xz_front_of(src: Seq<u8>, n: nat) -> Result<Seq<u8>, Seq<char>>;

/// `liblzma::read::XzDecoder::new`, read to the end through `Read::take`,
/// named as a function of the input and the limit. At most `n` bytes come
/// out, and a longer read of the same input, where it succeeds, starts
/// with the same bytes and is longer only when the limit was reached. The
/// decoder takes one stream and has no memory limit of its own.
#[verifier::external_body]
fn xz_front(src: &[u8], n: u64) -> (r: Result<Vec<u8>, String>)
    ensures
        match r {
            Ok(v) => {
                &&& xz_front_of(src@, n as nat) == Ok::<Seq<u8>, Seq<char>>(v@)
                &&& v@.len() <= n
                &&& forall|m: nat|
                    m >= n ==> match #[trigger] xz_front_of(src@, m) {
                        Ok(all) => v@ == (if all.len() > n {
                            all.take(n as int)
                        } else {
                            all
                        }),
                        Err(_) => true,
                    }
            },
            Err(m) => xz_front_of(src@, n as nat) == Err::<Seq<u8>, Seq<char>>(m@),
        },
{
    let mut out: Vec<u8> = Vec::new();
    liblzma::read::XzDecoder::new(src).take(n).read_to_end(&mut out).map_err(|e| e.to_string())?;
    Ok(out)
}

/// A decode failure of this codec.
pub open spec fn lzma_error(message: Seq<char>) -> ErrorView {
    ErrorView::Decode { codec: "lzma"@, message }
}

/// What decoding answers, given the first bytes of the stream up to one
/// past the cap.
pub open spec fn lzma_outcome(front: Result<Seq<u8>, Seq<char>>, cap: nat) -> Result<
    Seq<u8>,
    ErrorView,
> {
    match front {
        Ok(v) => if v.len() > cap {
            Err(lzma_error(cap_text(cap)))
        } else {
            Ok(v)
        },
        Err(m) => Err(lzma_error(m)),
    }
}

/// What decoding the front answers, given the first bytes of the stream. A
/// failure behind the front is not noticed.
pub open spec fn lzma_front_outcome(front: Result<Seq<u8>, Seq<char>>) -> Result<
    Seq<u8>,
    ErrorView,
> {
    match front {
        Ok(v) => Ok(v),
        Err(m) => Err(lzma_error(m)),
    }
}

/// Bound the decoder's output by `cap`.
pub fn finish(front: Result<Vec<u8>, String>, cap: usize) -> (r: Result<Vec<u8>, Error>)
    ensures
        match front {
            Ok(v) => if v@.len() > cap {
                r matches Err(e) && e@ == lzma_error(cap_text(cap as nat))
            } else {
                r matches Ok(w) && w@ == v@
            },
            Err(m) => r matches Err(e) && e@ == lzma_error(m@),
        },
{
    match front {
        Ok(v) => {
            let mut sink: CappedWriter = CappedWriter::with_expected_size(cap, v.len());
            match sink.write_all(v.as_slice()) {
                Ok(()) => {
                    let out: Vec<u8> = sink.into_inner();
                    assert(out@ =~= v@);
                    Ok(out)
                },
                Err(message) => Err(Error::Decode { codec: "lzma", message }),
            }
        },
        Err(message) => Err(Error::Decode { codec: "lzma", message }),
    }
}

/// Decode a xz stream of at most `cap` bytes.
pub fn decompress(src: &[u8], cap: usize) -> (r: Result<Vec<u8>, Error>)
    ensures
        viewed(r) == lzma_outcome(xz_front_of(src@, past_cap(cap as nat)), cap as nat),
        r matches Ok(v) ==> v@.len() <= cap,
{
    finish(xz_front(src, (cap as u64).saturating_add(1)), cap)
}

/// Decode `needed` bytes from the front of the stream, or all of it when
/// it is shorter.
pub fn decompress_prefix(src: &[u8], needed: usize) -> (r: Result<Vec<u8>, Error>)
    ensures
        viewed(r) == lzma_front_outcome(xz_front_of(src@, needed as nat)),
        r matches Ok(p) ==> forall|cap: nat|
            needed <= cap <= usize::MAX ==> match #[trigger] lzma_outcome(
                xz_front_of(src@, past_cap(cap)),
                cap,
            ) {
                Ok(all) => p@ == (if all.len() > needed {
                    all.take(needed as int)
                } else {
                    all
                }),
                Err(_) => true,
            },
{
    match xz_front(src, needed as u64) {
        Ok(v) => Ok(v),
        Err(message) => Err(Error::Decode { codec: "lzma", message }),
    }
}

} // verus!
