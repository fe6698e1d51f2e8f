//! What a payload decodes to, by its codec and its frame.

use crate::bytes::to_le;
use crate::compression::brotli::{OUTPUT_LIMIT, STREAM_LIMIT, brotli_front_of, leb128, leb128_from};
use crate::compression::dispatch::{decoded, decoded_front, name_of};
use crate::compression::lz4::{
    coded_length, lengths_fit, lengths_fit_from, lz4_block_of, lz4_decoded, run_end,
};
use crate::compression::lzma::xz_front_of;
use crate::compression::zstd::zstd_front_of;
use crate::error::ErrorView;
use crate::format::types::Compression;
use crate::metadata::thrift::{ThriftState, lemma_varint_roundtrip, varint_encode, varint_from};
use vstd::prelude::*;

verus! {

/// A stored payload is the data, where it is no longer than allowed.
pub proof fn lemma_stored_payload_is_the_data(src: Seq<u8>, cap: nat)
    ensures
        src.len() <= cap ==> decoded(Compression::Stored, src, cap) == Ok::<Seq<u8>, ErrorView>(
            src,
        ),
        src.len() > cap ==> decoded(Compression::Stored, src, cap) is Err,
{
}

/// A Zstandard or LZMA payload is what its decoder gives, where that is no
/// longer than allowed. The decoder is asked for one byte more, so a longer
/// output is told from one that just fits.
pub proof fn lemma_streams_are_what_the_decoder_gives(src: Seq<u8>, cap: nat, data: Seq<u8>)
    requires
        cap < u64::MAX,
    ensures
        zstd_front_of(src, cap + 1) == Ok::<Seq<u8>, Seq<char>>(data) ==> (if data.len() <= cap {
            decoded(Compression::Zstd, src, cap) == Ok::<Seq<u8>, ErrorView>(data)
        } else {
            decoded(Compression::Zstd, src, cap) is Err
        }),
        zstd_front_of(src, cap + 1) is Err ==> decoded(Compression::Zstd, src, cap) is Err,
        xz_front_of(src, cap + 1) == Ok::<Seq<u8>, Seq<char>>(data) ==> (if data.len() <= cap {
            decoded(Compression::Lzma, src, cap) == Ok::<Seq<u8>, ErrorView>(data)
        } else {
            decoded(Compression::Lzma, src, cap) is Err
        }),
        xz_front_of(src, cap + 1) is Err ==> decoded(Compression::Lzma, src, cap) is Err,
{
}

/// The front of a Zstandard or LZMA payload is what its decoder gives when
/// it is asked for that many bytes. The other codecs have no front.
pub proof fn lemma_fronts_are_what_the_decoder_gives(codec: Compression, src: Seq<u8>, needed: nat)
    ensures
        zstd_front_of(src, needed) matches Ok(data) ==> decoded_front(
            Compression::Zstd,
            src,
            needed,
        ) == Ok::<Option<Seq<u8>>, ErrorView>(Some(data)),
        xz_front_of(src, needed) matches Ok(data) ==> decoded_front(Compression::Lzma, src, needed)
            == Ok::<Option<Seq<u8>>, ErrorView>(Some(data)),
        codec != Compression::Zstd && codec != Compression::Lzma ==> decoded_front(
            codec,
            src,
            needed,
        ) == Ok::<Option<Seq<u8>>, ErrorView>(None),
{
}

/// An LZ4 payload is its size in four little-endian bytes, then a block
/// that is decoded into that many bytes. Both LZ4 encoders share the frame.
pub proof fn lemma_lz4_frame(size: nat, block: Seq<u8>, cap: nat)
    requires
        size <= u32::MAX,
    ensures
        ({
            let src = to_le(size, 4) + block;
            let r = decoded(Compression::Lz4, src, cap);
            &&& decoded(Compression::Lz4Hc, src, cap) == r
            &&& size > cap ==> r is Err
            &&& size <= cap && lengths_fit(block) ==> match lz4_block_of(block, size) {
                Ok(data) => r == Ok::<Seq<u8>, ErrorView>(data),
                Err(_) => r is Err,
            }
            &&& !lengths_fit(block) ==> r is Err
        }),
{
    let src = to_le(size, 4) + block;
    vstd::arithmetic::power2::lemma2_to64();
    crate::bytes::lemma_to_le(size, 4);
    assert(src.take(4) =~= to_le(size, 4));
    assert(src.skip(4) =~= block);
}

/// A payload too short for its size is refused.
pub proof fn lemma_short_lz4_payloads_are_refused(src: Seq<u8>, cap: nat)
    requires
        src.len() < 4,
    ensures
        lz4_decoded(src, cap) is Err,
{
}

proof fn lemma_leb128_is_a_varint(src: Seq<u8>, i: nat, acc: nat)
    requires
        i <= src.len(),
    ensures
        ({
            let st = ThriftState { pos: i, ..ThriftState::start(src) };
            match varint_from(st, i, acc) {
                (Ok(v), next) => leb128_from(src, i, acc) == Ok::<(u64, nat), ErrorView>(
                    (v, next.pos),
                ),
                _ => leb128_from(src, i, acc) is Err,
            }
        }),
    decreases 10 - i,
{
    let st = ThriftState { pos: i, ..ThriftState::start(src) };
    if i < 10 && i < src.len() {
        let b = src[i as int];
        let sum = acc + (b % 128) as nat * vstd::arithmetic::power2::pow2(7 * i);
        if b >= 128 {
            lemma_leb128_is_a_varint(src, i + 1, sum);
            assert(st.advance(1) == ThriftState { pos: i + 1, ..ThriftState::start(src) });
        }
    }
}

/// A size in front of a stream reads back as it was written.
pub proof fn lemma_leb128_reads_back(n: u64, stream: Seq<u8>)
    ensures
        leb128(varint_encode(n as nat) + stream) == Ok::<(u64, nat), ErrorView>(
            (n, varint_encode(n as nat).len()),
        ),
{
    let src = varint_encode(n as nat) + stream;
    lemma_varint_roundtrip(n, stream);
    lemma_leb128_is_a_varint(src, 0, 0);
    assert(ThriftState { pos: 0, ..ThriftState::start(src) } == ThriftState::start(src));
}

/// A Brotli payload is its size, seven bits to a byte, then a stream. It is
/// what the decoder gives for the stream, where that is no longer than
/// allowed.
pub proof fn lemma_brotli_frame(n: u64, stream: Seq<u8>, cap: nat, data: Seq<u8>)
    requires
        stream.len() <= STREAM_LIMIT,
        cap + 1 < OUTPUT_LIMIT,
    ensures
        ({
            let r = decoded(Compression::Brotli, varint_encode(n as nat) + stream, cap);
            &&& n > cap ==> r is Err
            &&& n <= cap && brotli_front_of(stream, cap + 1) == Ok::<Seq<u8>, Seq<char>>(data)
                && data.len() <= cap ==> r == Ok::<Seq<u8>, ErrorView>(data)
            &&& n <= cap && brotli_front_of(stream, cap + 1) == Ok::<Seq<u8>, Seq<char>>(data)
                && data.len() > cap ==> r is Err
            &&& brotli_front_of(stream, cap + 1) is Err ==> r is Err
        }),
{
    let front = varint_encode(n as nat);
    lemma_leb128_reads_back(n, stream);
    assert((front + stream).skip(front.len() as int) =~= stream);
}

/// What no decoder is there for is refused, and the refusal says what it
/// was.
pub proof fn lemma_other_codecs_are_refused(value: u16, src: Seq<u8>, cap: nat)
    ensures
        decoded(Compression::Flac, src, cap) == Err::<Seq<u8>, ErrorView>(
            ErrorView::CodecUnimplemented { codec: name_of(Compression::Flac) },
        ),
        decoded(Compression::Ricepp, src, cap) == Err::<Seq<u8>, ErrorView>(
            ErrorView::CodecUnimplemented { codec: name_of(Compression::Ricepp) },
        ),
        decoded(Compression::Unknown(value), src, cap) == Err::<Seq<u8>, ErrorView>(
            ErrorView::UnknownCompression { value },
        ),
        name_of(Compression::Flac) == "flac"@,
        name_of(Compression::Ricepp) == "ricepp"@,
{
}

/// The further bytes of a length whose first four bits are all set: 255 as
/// often as it goes, then the rest.
pub open spec fn length_tail(n: nat) -> Seq<u8>
    decreases n,
{
    if n < 255 {
        seq![n as u8]
    } else {
        seq![255u8] + length_tail((n - 255) as nat)
    }
}

/// The first four bits of a length.
pub open spec fn length_bits(n: nat) -> nat {
    if n < 15 {
        n
    } else {
        15
    }
}

/// The further bytes of a length.
pub open spec fn length_rest(n: nat) -> Seq<u8> {
    if n < 15 {
        Seq::empty()
    } else {
        length_tail((n - 15) as nat)
    }
}

/// One sequence of an LZ4 block: literals, then a match of four bytes at
/// least.
pub struct Lz4Sequence {
    pub literals: Seq<u8>,
    pub distance: (u8, u8),
    pub matched: nat,
}

/// The bytes of a sequence.
pub open spec fn sequence_bytes(s: Lz4Sequence) -> Seq<u8> {
    seq![(16 * length_bits(s.literals.len()) + length_bits((s.matched - 4) as nat)) as u8]
        + length_rest(s.literals.len()) + s.literals + seq![s.distance.0, s.distance.1]
        + length_rest((s.matched - 4) as nat)
}

/// The bytes of the literals that end a block.
pub open spec fn last_bytes(literals: Seq<u8>) -> Seq<u8> {
    seq![(16 * length_bits(literals.len())) as u8] + length_rest(literals.len()) + literals
}

/// The bytes of a block from sequence `i` on.
pub open spec fn block_bytes(sequences: Seq<Lz4Sequence>, i: nat, literals: Seq<u8>) -> Seq<u8>
    decreases sequences.len() - i,
{
    if i >= sequences.len() {
        last_bytes(literals)
    } else {
        sequence_bytes(sequences[i as int]) + block_bytes(sequences, i + 1, literals)
    }
}

/// The length of what a block holds from sequence `i` on.
pub open spec fn block_output(sequences: Seq<Lz4Sequence>, i: nat, literals: Seq<u8>) -> nat
    decreases sequences.len() - i,
{
    if i >= sequences.len() {
        literals.len()
    } else {
        sequences[i as int].literals.len() + sequences[i as int].matched + block_output(
            sequences,
            i + 1,
            literals,
        )
    }
}

/// Whether the bytes `s` stand at `at`.
spec fn stands(block: Seq<u8>, at: nat, s: Seq<u8>) -> bool {
    &&& at + s.len() <= block.len()
    &&& block.subrange(at as int, (at + s.len()) as int) == s
}

proof fn lemma_stands_split(block: Seq<u8>, at: nat, a: Seq<u8>, b: Seq<u8>)
    requires
        stands(block, at, a + b),
    ensures
        stands(block, at, a),
        stands(block, at + a.len(), b),
{
    let whole = block.subrange(at as int, (at + (a + b).len()) as int);
    assert(block.subrange(at as int, (at + a.len()) as int) =~= whole.subrange(0, a.len() as int));
    assert((a + b).subrange(0, a.len() as int) =~= a);
    assert(block.subrange((at + a.len()) as int, (at + a.len() + b.len()) as int)
        =~= whole.subrange(a.len() as int, (a + b).len() as int));
    assert((a + b).subrange(a.len() as int, (a + b).len() as int) =~= b);
}

proof fn lemma_length_tail(block: Seq<u8>, at: nat, n: nat)
    requires
        stands(block, at, length_tail(n)),
    ensures
        run_end(block, at) < block.len(),
        run_end(block, at) >= at,
        255 * (run_end(block, at) - at) + block[run_end(block, at) as int] == n,
        run_end(block, at) + 1 == at + length_tail(n).len(),
    decreases n,
{
    if n < 255 {
        assert(block.subrange(at as int, (at + 1) as int)[0] == n as u8);
        assert(block[at as int] == n);
    } else {
        lemma_stands_split(block, at, seq![255u8], length_tail((n - 255) as nat));
        assert(block.subrange(at as int, (at + 1) as int)[0] == 255);
        lemma_length_tail(block, at + 1, (n - 255) as nat);
    }
}

proof fn lemma_length(block: Seq<u8>, at: nat, n: nat)
    requires
        stands(block, at, length_rest(n)),
    ensures
        ({
            let c = coded_length(block, length_bits(n), at);
            c.length == n && c.whole && c.next == at + length_rest(n).len()
        }),
{
    if n >= 15 {
        lemma_length_tail(block, at, (n - 15) as nat);
    }
}

proof fn lemma_lengths(
    block: Seq<u8>,
    at: nat,
    sequences: Seq<Lz4Sequence>,
    i: nat,
    literals: Seq<u8>,
    written: nat,
)
    requires
        i <= sequences.len(),
        forall|k: int| 0 <= k < sequences.len() ==> (#[trigger] sequences[k]).matched >= 4,
        stands(block, at, block_bytes(sequences, i, literals)),
        at + block_bytes(sequences, i, literals).len() == block.len(),
        written <= u32::MAX,
    ensures
        lengths_fit_from(block, at, written) == (written + block_output(sequences, i, literals)
            <= u32::MAX),
    decreases sequences.len() - i,
{
    if i < sequences.len() {
        let s = sequences[i as int];
        let token = seq![
            (16 * length_bits(s.literals.len()) + length_bits((s.matched - 4) as nat)) as u8,
        ];
        let lit = length_rest(s.literals.len());
        let dist = seq![s.distance.0, s.distance.1];
        let rest = length_rest((s.matched - 4) as nat);
        let more = block_bytes(sequences, i + 1, literals);
        lemma_stands_split(block, at, sequence_bytes(s), more);
        lemma_stands_split(block, at, token + lit + s.literals + dist, rest);
        lemma_stands_split(block, at, token + lit + s.literals, dist);
        lemma_stands_split(block, at, token + lit, s.literals);
        lemma_stands_split(block, at, token, lit);
        assert(block.subrange(at as int, (at + 1) as int)[0] == token[0]);
        lemma_length(block, at + 1, s.literals.len());
        let offset = at + 1 + lit.len() + s.literals.len();
        lemma_length(block, offset + 2, (s.matched - 4) as nat);
        assert(block[at as int] == token[0]);
        if written + s.literals.len() + s.matched <= u32::MAX {
            lemma_lengths(
                block,
                at + sequence_bytes(s).len(),
                sequences,
                i + 1,
                literals,
                written + s.literals.len() + s.matched,
            );
        }
    } else {
        let token = seq![(16 * length_bits(literals.len())) as u8];
        let lit = length_rest(literals.len());
        lemma_stands_split(block, at, token + lit, literals);
        lemma_stands_split(block, at, token, lit);
        assert(block.subrange(at as int, (at + 1) as int)[0] == token[0]);
        assert(block[at as int] == token[0]);
        lemma_length(block, at + 1, literals.len());
    }
}

/// The lengths of an LZ4 block fit exactly where what it holds is no longer
/// than a 32-bit number counts.
pub proof fn lemma_fitting_lengths_are_those_of_the_output(
    sequences: Seq<Lz4Sequence>,
    literals: Seq<u8>,
)
    requires
        forall|k: int| 0 <= k < sequences.len() ==> (#[trigger] sequences[k]).matched >= 4,
    ensures
        lengths_fit(block_bytes(sequences, 0, literals)) == (block_output(sequences, 0, literals)
            <= u32::MAX),
{
    let block = block_bytes(sequences, 0, literals);
    assert(block.subrange(0, block.len() as int) =~= block);
    lemma_lengths(block, 0, sequences, 0, literals, 0);
}

} // verus!
