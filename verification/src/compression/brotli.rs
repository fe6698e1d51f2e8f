//! Brotli codec.
//!
//! Framing: an unsigned LEB128 uncompressed-size prefix followed by a
//! raw brotli stream.

use std::io::Read;

use crate::compression::capped::{CappedWriter, cap_text};
use crate::error::{Error, ErrorView, decode_error, viewed};
use crate::text::{Text, dec};
use vstd::arithmetic::power2::*;
use vstd::prelude::*;

verus! {

const LEB128_MAX_BYTES: usize = 10;

/// The longest stream that is decoded: eleven mebibytes. No stream within
/// it can exhaust the decoder's counters.
pub const STREAM_LIMIT: usize = 0xB0_0000;

/// How many bytes are decoded at most: three gibibytes less 64 kibibytes.
pub const OUTPUT_LIMIT: u64 = 0xBFFF_0000;

/// The first `n` bytes that a raw brotli stream decodes to, all of them
/// when there are fewer, or the decoder's complaint.
pub uninterp spec fn brotli_front_of(stream: Seq<u8>, n: nat) -> Result<Seq<u8>, Seq<char>>;

/// `brotli::Decompressor::new` with a 4096-byte buffer, read to the end
/// through `Read::take`, named as a function of the stream and the limit.
/// At most `n` bytes come out, and a longer read of the same stream, where
/// it succeeds, starts with the same bytes and is longer only when the
/// limit was reached. A malformed stream comes back as an error.
///
/// The decoder counts the commands and the distances of a metablock down
/// from 2^24 and can panic when a counter runs out, so longer streams are
/// left out. A metablock holds at most 2^24 bytes of output. So of 2^24 commands
/// more than half put out less than two bytes each, which only a reference
/// to the static dictionary does whose word is cut down to nothing or to
/// one byte. Its distance is past 23552, and past 34816 where nothing is
/// left, and carries ten, or eleven, extra bits at least. That makes more
/// than 11 * 2^23 bits in all, so a stream of eleven mebibytes is too short
/// for it, and one a few bytes longer need not be.
///
/// The decoder also counts its copies, of two bytes at least, in 31 bits.
/// It decodes ahead by no more than a window, of at most 2^30 bytes, so it
/// stays below 2^32 bytes where `n` is within the limit here.
#[verifier::external_body]
fn brotli_front(stream: &[u8], n: u64) -> (r: Result<Vec<u8>, String>)
    requires
        stream@.len() <= STREAM_LIMIT,
        n <= OUTPUT_LIMIT,
    ensures
        match r {
            Ok(v) => {
                &&& brotli_front_of(stream@, n as nat) == Ok::<Seq<u8>, Seq<char>>(v@)
                &&& v@.len() <= n
                &&& forall|m: nat|
                    n <= m <= OUTPUT_LIMIT ==> match #[trigger] brotli_front_of(stream@, m) {
                        Ok(all) => v@ == (if all.len() > n {
                            all.take(n as int)
                        } else {
                            all
                        }),
                        Err(_) => true,
                    }
            },
            Err(m) => brotli_front_of(stream@, n as nat) == Err::<Seq<u8>, Seq<char>>(m@),
        },
{
    let mut out: Vec<u8> = Vec::new();
    ::brotli::Decompressor::new(stream, 4096)
        .take(n)
        .read_to_end(&mut out)
        .map_err(|e| e.to_string())?;
    Ok(out)
}

/// A decode failure of this codec.
pub open spec fn brotli_error(message: Seq<char>) -> ErrorView {
    ErrorView::Decode { codec: "brotli"@, message }
}

/// The LEB128 number in `src[i..]` above `acc`, and where it ends. At most
/// ten bytes belong to a number; bits above the 64th are dropped.
pub open spec fn leb128_from(src: Seq<u8>, i: nat, acc: nat) -> Result<(u64, nat), ErrorView>
    decreases 10 - i,
{
    if i >= 10 || i >= src.len() {
        Err(brotli_error("leb128 size truncated or too long"@))
    } else {
        let b = src[i as int];
        let sum = acc + (b % 128) as nat * pow2(7 * i);
        if b < 128 {
            Ok(((sum % 0x1_0000_0000_0000_0000) as u64, i + 1))
        } else {
            leb128_from(src, i + 1, sum)
        }
    }
}

/// The LEB128 number at the start of `src`, and where it ends.
pub open spec fn leb128(src: Seq<u8>) -> Result<(u64, nat), ErrorView> {
    leb128_from(src, 0, 0)
}

/// Where the brotli stream starts, or what is wrong with the size that a
/// payload declares.
pub open spec fn brotli_start(src: Seq<u8>, cap: nat) -> Result<nat, ErrorView> {
    match leb128(src) {
        Err(e) => Err(e),
        Ok((declared, consumed)) => if declared > cap {
            Err(
                brotli_error(
                    "declared size "@ + dec(declared as nat) + " exceeds cap "@ + dec(cap),
                ),
            )
        } else {
            Ok(consumed)
        },
    }
}

/// How many bytes to decode: one past the cap, within the decoder's limit.
pub open spec fn brotli_wanted(cap: nat) -> nat {
    if cap >= OUTPUT_LIMIT {
        OUTPUT_LIMIT as nat
    } else {
        cap + 1
    }
}

/// What decoding answers, given the first bytes of the stream up to one
/// past the cap. Output that reaches the decoder's limit is refused, as
/// nothing tells whether the stream ends there.
pub open spec fn brotli_outcome(front: Result<Seq<u8>, Seq<char>>, cap: nat) -> Result<
    Seq<u8>,
    ErrorView,
> {
    match front {
        Ok(v) => if v.len() > cap {
            Err(brotli_error(cap_text(cap)))
        } else if v.len() >= OUTPUT_LIMIT {
            Err(brotli_error("output reaches "@ + dec(OUTPUT_LIMIT as nat) + " bytes"@))
        } else {
            Ok(v)
        },
        Err(m) => Err(brotli_error(m)),
    }
}

/// What decoding a brotli payload answers.
pub open spec fn brotli_decoded(src: Seq<u8>, cap: nat) -> Result<Seq<u8>, ErrorView> {
    match brotli_start(src, cap) {
        Ok(start) => if src.len() - start > STREAM_LIMIT {
            Err(
                brotli_error(
                    "stream of "@ + dec((src.len() - start) as nat) + " bytes exceeds "@ + dec(
                        STREAM_LIMIT as nat,
                    ),
                ),
            )
        } else {
            brotli_outcome(brotli_front_of(src.skip(start as int), brotli_wanted(cap)), cap)
        },
        Err(e) => Err(e),
    }
}

/// Read the LEB128 number at the start of `src`; answers it and the number
/// of bytes it took.
pub fn read_leb128_u64(src: &[u8]) -> (r: Result<(u64, usize), Error>)
    ensures
        match r {
            Ok((v, n)) => n <= src@.len() && leb128(src@) == Ok::<(u64, nat), ErrorView>(
                (v, n as nat),
            ),
            Err(e) => leb128(src@) == Err::<(u64, nat), ErrorView>(e@),
        },
{
    let mut acc: u128 = 0;
    let mut scale: u128 = 1;
    let mut i: usize = 0;
    proof {
        lemma2_to64();
        lemma2_to64_rest();
        lemma_pow2_adds(63, 7);
    }
    while i < LEB128_MAX_BYTES && i < src.len()
        invariant
            i <= 10,
            i <= src.len(),
            pow2(7) == 128,
            pow2(70) == 0x40_0000_0000_0000_0000,
            scale == pow2(7 * i as nat),
            acc < scale,
            leb128(src@) == leb128_from(src@, i as nat, acc as nat),
        decreases 10 - i,
    {
        let b: u8 = src[i];
        let chunk: u8 = b % 128;
        proof {
            lemma_pow2_adds(7 * i as nat, 7);
            assert(7 * (i + 1) == 7 * i + 7);
            if 7 * i + 7 < 70 {
                lemma_pow2_strictly_increases((7 * i + 7) as nat, 70);
            }
            assert(chunk * scale <= 127 * scale) by (nonlinear_arith)
                requires
                    chunk <= 127,
            ;
        }
        acc = acc + (chunk as u128) * scale;
        if b < 128 {
            return Ok(((acc % 0x1_0000_0000_0000_0000) as u64, i + 1));
        }
        scale = scale * 128;
        i = i + 1;
    }
    Err(decode_error("brotli", "leb128 size truncated or too long"))
}

/// Where the brotli stream starts in a payload that declares at most `cap`
/// bytes.
pub fn stream_start(src: &[u8], cap: usize) -> (r: Result<usize, Error>)
    ensures
        match r {
            Ok(n) => n <= src@.len() && brotli_start(src@, cap as nat) == Ok::<nat, ErrorView>(
                n as nat,
            ),
            Err(e) => brotli_start(src@, cap as nat) == Err::<nat, ErrorView>(e@),
        },
{
    let (declared, consumed): (u64, usize) = read_leb128_u64(src)?;
    if declared > cap as u64 {
        return Err(
            Error::Decode {
                codec: "brotli",
                message: Text::of("declared size ").num(declared).str(" exceeds cap ").num(
                    cap as u64,
                ).done(),
            },
        );
    }
    Ok(consumed)
}

/// Bound the decoder's output by `cap` and by what the decoder is good for.
pub fn finish(front: Result<Vec<u8>, String>, cap: usize) -> (r: Result<Vec<u8>, Error>)
    ensures
        viewed(r) == brotli_outcome(
            match front {
                Ok(v) => Ok::<Seq<u8>, Seq<char>>(v@),
                Err(m) => Err(m@),
            },
            cap as nat,
        ),
{
    match front {
        Ok(v) => {
            let mut sink: CappedWriter = CappedWriter::with_expected_size(cap, v.len());
            match sink.write_all(v.as_slice()) {
                Ok(()) => {
                    let out: Vec<u8> = sink.into_inner();
                    assert(out@ =~= v@);
                    if out.len() as u64 >= OUTPUT_LIMIT {
                        return Err(
                            Error::Decode {
                                codec: "brotli",
                                message: Text::of("output reaches ").num(OUTPUT_LIMIT).str(
                                    " bytes",
                                ).done(),
                            },
                        );
                    }
                    Ok(out)
                },
                Err(message) => Err(Error::Decode { codec: "brotli", message }),
            }
        },
        Err(message) => Err(Error::Decode { codec: "brotli", message }),
    }
}

/// Decode a brotli payload of at most `cap` bytes. A stream longer than
/// [`STREAM_LIMIT`] is refused, and so is output of [`OUTPUT_LIMIT`] bytes
/// or more.
pub fn decompress(src: &[u8], cap: usize) -> (r: Result<Vec<u8>, Error>)
    ensures
        viewed(r) == brotli_decoded(src@, cap as nat),
        r matches Ok(v) ==> v@.len() <= cap,
{
    let start: usize = stream_start(src, cap)?;
    let stream: &[u8] = vstd::slice::slice_subrange(src, start, src.len());
    assert(stream@ =~= src@.skip(start as int));
    if stream.len() > STREAM_LIMIT {
        return Err(
            Error::Decode {
                codec: "brotli",
                message: Text::of("stream of ").num(stream.len() as u64).str(
                    " bytes exceeds ",
                ).num(STREAM_LIMIT as u64).done(),
            },
        );
    }
    let wanted: u64 = if cap as u64 >= OUTPUT_LIMIT {
        OUTPUT_LIMIT
    } else {
        cap as u64 + 1
    };
    finish(brotli_front(stream, wanted), cap)
}

} // verus!
