//! LZ4 and LZ4HC codecs.
//!
//! Framing: a 4-byte little-endian uncompressed-size prefix followed by
//! a single LZ4 block. LZ4 and LZ4HC differ only in the encoder; the
//! on-disk block format is identical, so a single decoder serves both.

use crate::bytes::{le, read_le};
use crate::error::{Error, ErrorView, decode_error, viewed};
use crate::text::{Text, dec};
use vstd::prelude::*;

verus! {

/// What decoding an LZ4 block into a buffer of `size` bytes gives: the
/// bytes, or the decoder's complaint.
pub uninterp spec fn lz4_block_of(block: Seq<u8>, size: nat) -> Result<Seq<u8>, Seq<char>>;

/// Where the run of bytes 255 that starts at `at` ends.
pub open spec fn run_end(block: Seq<u8>, at: nat) -> nat
    decreases block.len() - at,
{
    if at < block.len() && block[at as int] == 255 {
        run_end(block, at + 1)
    } else {
        at
    }
}

/// A length whose first four bits are `bits`.
pub struct CodedLength {
    /// The length, as far as the block spells it out.
    pub length: nat,
    /// Where the next part of the block starts.
    pub next: nat,
    /// Whether the block spells it out to the end.
    pub whole: bool,
}

/// The length whose first four bits are `bits` and whose further bytes, if
/// it has any, start at `at`: it has some when all four bits are set, and
/// goes on behind every byte 255.
pub open spec fn coded_length(block: Seq<u8>, bits: nat, at: nat) -> CodedLength {
    let end = run_end(block, at);
    if bits < 15 {
        CodedLength { length: bits, next: at, whole: true }
    } else if end < block.len() {
        CodedLength {
            length: bits + 255 * (end - at) as nat + block[end as int] as nat,
            next: end + 1,
            whole: true,
        }
    } else {
        CodedLength { length: bits + 255 * (end - at) as nat, next: end, whole: false }
    }
}

/// Whether the lengths that a block spells out from `at` on, `written`
/// bytes into the output, add up to no more than a 32-bit number. Each
/// sequence is a token, a literal length with the literals, a two-byte
/// offset and a match length, which is at least four.
pub open spec fn lengths_fit_from(block: Seq<u8>, at: nat, written: nat) -> bool
    decreases block.len() - at,
{
    if at >= block.len() {
        true
    } else {
        let token = block[at as int];
        let literal = coded_length(block, (token / 16) as nat, at + 1);
        let offset = literal.next + literal.length;
        if written + literal.length > u32::MAX {
            false
        } else if !literal.whole || offset + 2 > block.len() {
            true
        } else {
            let matched = coded_length(block, (token % 16) as nat, offset + 2);
            let after = written + literal.length + 4 + matched.length;
            if after > u32::MAX {
                false
            } else if !matched.whole {
                true
            } else {
                proof {
                    lemma_run_end(block, at + 1);
                    lemma_run_end(block, offset + 2);
                }
                lengths_fit_from(block, matched.next, after)
            }
        }
    }
}

/// Whether the lengths that a block spells out add up to no more than a
/// 32-bit number. A block that decodes to no more than such a number of
/// bytes has lengths that do.
pub open spec fn lengths_fit(block: Seq<u8>) -> bool {
    lengths_fit_from(block, 0, 0)
}

/// A run ends at or behind its start.
pub proof fn lemma_run_end(block: Seq<u8>, at: nat)
    ensures
        at <= run_end(block, at),
        at <= block.len() ==> run_end(block, at) <= block.len(),
    decreases block.len() - at,
{
    if at < block.len() && block[at as int] == 255 {
        lemma_run_end(block, at + 1);
    }
}

/// Read a length; answers it, where the next part of the block starts, and
/// whether the block spells the length out to the end.
fn read_length(block: &[u8], bits: u8, at: usize) -> (r: (u128, usize, bool))
    requires
        at <= block@.len(),
        bits <= 15,
    ensures
        ({
            let want = coded_length(block@, bits as nat, at as nat);
            r.0 == want.length && r.1 == want.next && r.2 == want.whole
        }),
        at <= r.1 <= block@.len(),
        r.0 <= 15 + 255 * 0x1_0000_0000_0000_0000,
{
    if bits < 15 {
        return (bits as u128, at, true);
    }
    let total: usize = block.len();
    let mut length: u128 = 15;
    let mut i: usize = at;
    while i < total && block[i] == 255
        invariant
            at <= i <= total == block@.len(),
            length == 15 + 255 * (i - at),
            run_end(block@, at as nat) == run_end(block@, i as nat),
        decreases block@.len() - i,
    {
        length = length + 255;
        i = i + 1;
    }
    if i < total {
        (length + block[i] as u128, i + 1, true)
    } else {
        (length, i, false)
    }
}

/// Whether the lengths that a block spells out add up to no more than a
/// 32-bit number.
pub fn lengths_fit_in(block: &[u8]) -> (r: bool)
    ensures
        r == lengths_fit(block@),
{
    let limit: u128 = 0xffff_ffff;
    let total: usize = block.len();
    let mut at: usize = 0;
    let mut written: u128 = 0;
    while at < total
        invariant
            at <= total == block@.len(),
            limit == u32::MAX,
            written <= limit,
            lengths_fit(block@) == lengths_fit_from(block@, at as nat, written as nat),
        decreases block@.len() - at,
    {
        let token: u8 = block[at];
        let (literal, next, whole): (u128, usize, bool) = read_length(
            block,
            token / 16,
            at + 1,
        );
        if written + literal > limit {
            return false;
        }
        if !whole || next as u128 + literal + 2 > total as u128 {
            return true;
        }
        let offset: usize = next + literal as usize;
        let (matched, after, whole): (u128, usize, bool) = read_length(
            block,
            token % 16,
            offset + 2,
        );
        written = written + literal + 4 + matched;
        if written > limit {
            return false;
        }
        if !whole {
            return true;
        }
        at = after;
    }
    true
}

/// `lz4_flex::block::decompress`, named as a function of the block and
/// the buffer size. The result lives in a buffer of `size` bytes, so it
/// is never longer. The decoder adds lengths up in 32 bits and counts the
/// output in a machine word, so a block whose lengths do not fit is left
/// out.
#[verifier::external_body]
fn lz4_block(block: &[u8], size: usize) -> (r: Result<Vec<u8>, String>)
    requires
        lengths_fit(block@),
    ensures
        match r {
            Ok(v) => lz4_block_of(block@, size as nat) == Ok::<Seq<u8>, Seq<char>>(v@) && v@.len()
                <= size,
            Err(m) => lz4_block_of(block@, size as nat) == Err::<Seq<u8>, Seq<char>>(m@),
        },
{
    lz4_flex::block::decompress(block, size).map_err(|e| e.to_string())
}

/// A decode failure of this codec.
pub open spec fn lz4_error(message: Seq<char>) -> ErrorView {
    ErrorView::Decode { codec: "lz4"@, message }
}

/// The size an LZ4 payload declares, or what is wrong with it.
pub open spec fn lz4_size(src: Seq<u8>, cap: nat) -> Result<nat, ErrorView> {
    if src.len() < 4 {
        Err(lz4_error("missing 4-byte size prefix"@))
    } else if le(src.take(4)) > cap {
        Err(
            lz4_error(
                "declared size "@ + dec(le(src.take(4))) + " exceeds cap "@ + dec(cap),
            ),
        )
    } else {
        Ok(le(src.take(4)))
    }
}

/// What decoding an LZ4 payload answers, given what its block decodes to.
pub open spec fn lz4_outcome(block: Result<Seq<u8>, Seq<char>>) -> Result<Seq<u8>, ErrorView> {
    match block {
        Ok(v) => Ok(v),
        Err(m) => Err(lz4_error(m)),
    }
}

/// What decoding an LZ4 payload answers.
pub open spec fn lz4_decoded(src: Seq<u8>, cap: nat) -> Result<Seq<u8>, ErrorView> {
    match lz4_size(src, cap) {
        Ok(size) => if lengths_fit(src.skip(4)) {
            lz4_outcome(lz4_block_of(src.skip(4), size))
        } else {
            Err(lz4_error("block lengths exceed 32 bits"@))
        },
        Err(e) => Err(e),
    }
}

/// The size an LZ4 payload declares, which must not exceed `cap`.
pub fn declared_size(src: &[u8], cap: usize) -> (r: Result<usize, Error>)
    ensures
        match r {
            Ok(n) => lz4_size(src@, cap as nat) == Ok::<nat, ErrorView>(n as nat),
            Err(e) => lz4_size(src@, cap as nat) == Err::<nat, ErrorView>(e@),
        },
{
    if src.len() < 4 {
        return Err(decode_error("lz4", "missing 4-byte size prefix"));
    }
    let size: u64 = read_le(src, 0, 4);
    assert(src@.subrange(0, 4) =~= src@.take(4));
    if size > cap as u64 {
        return Err(
            Error::Decode {
                codec: "lz4",
                message: Text::of("declared size ").num(size).str(" exceeds cap ").num(
                    cap as u64,
                ).done(),
            },
        );
    }
    Ok(size as usize)
}

/// Turn the block decoder's answer into this codec's.
pub fn finish(block: Result<Vec<u8>, String>) -> (r: Result<Vec<u8>, Error>)
    ensures
        match block {
            Ok(v) => r matches Ok(w) && w@ == v@,
            Err(m) => r matches Err(e) && e@ == lz4_error(m@),
        },
{
    match block {
        Ok(v) => Ok(v),
        Err(message) => Err(Error::Decode { codec: "lz4", message }),
    }
}

/// Decode an LZ4 payload of at most `cap` bytes.
pub fn decompress(src: &[u8], cap: usize) -> (r: Result<Vec<u8>, Error>)
    ensures
        viewed(r) == lz4_decoded(src@, cap as nat),
        r matches Ok(v) ==> v@.len() <= cap,
{
    let size: usize = declared_size(src, cap)?;
    let block: &[u8] = vstd::slice::slice_subrange(src, 4, src.len());
    assert(block@ =~= src@.skip(4));
    if !lengths_fit_in(block) {
        return Err(decode_error("lz4", "block lengths exceed 32 bits"));
    }
    finish(lz4_block(block, size))
}

} // verus!
