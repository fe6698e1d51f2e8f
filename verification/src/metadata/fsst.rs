//! FSST (Fast Static Symbol Table) decoder for compact string tables.
//!
//! FSST maps single-byte codes to short symbols (1 to 8 bytes). The
//! special code `0xFF` is an escape: the next byte is a literal, not
//! a code. Decoding is therefore a tight per-byte loop over the
//! compressed payload, looking up each code in the symbol table.
//!
//! A serialized table is 8 bytes of version metadata, one byte
//! recording the `zeroTerminated` flag, an 8-byte length histogram
//! `lenHisto[0..8]`, and then symbol bytes serialized in order of
//! length 2, 3, 4, 5, 6, 7, 8, 1 (one-byte symbols last). 1-byte
//! symbols are counted in slot 0 and appended after the multi-byte
//! symbols.

use crate::bytes::{le, read_le};
use crate::error::{Error, ErrorView, decode_error, outcome};
use crate::text::{Text, hex};
use vstd::prelude::*;

verus! {

/// Escape byte: the next byte in the compressed stream is a literal.
pub const FSST_ESC: u8 = 0xFF;

pub const FSST_VERSION: u32 = 20_190_218;

const HEADER_LEN: usize = 17;

const NUM_CODES: usize = 256;

/// A decode failure of this module.
pub open spec fn fsst_error(message: Seq<char>) -> ErrorView {
    ErrorView::Decode { codec: "fsst"@, message }
}

/// What a symbol table maps codes to. Unused codes map to nothing.
#[verifier::ext_equal]
pub struct SymTableView {
    /// The symbol of each of the 256 codes.
    pub codes: Seq<Seq<u8>>,
    /// Whether the table was built in zero-terminated mode.
    pub zero_terminated: bool,
    /// How many bytes the serialized table takes: its header and its
    /// symbols.
    pub used: nat,
}

/// How many symbols of each length the stream stores. In zero-terminated
/// mode code 0 stands for the empty string and is counted as a 1-byte
/// symbol without being stored.
pub open spec fn stored_counts(bytes: Seq<u8>) -> Seq<nat> {
    Seq::new(
        8,
        |slot: int|
            if slot == 0 && bytes[8] % 2 != 0 && bytes[9] > 0 {
                (bytes[9] - 1) as nat
            } else {
                bytes[9 + slot] as nat
            },
    )
}

/// The symbol lengths still to come from round `round` of 1 to 8 on.
/// Round `r` stores the symbols counted in slot `r % 8`, which are one
/// longer than their slot.
pub open spec fn lengths_from(counts: Seq<nat>, round: nat) -> Seq<nat>
    decreases 9 - round,
{
    if round > 8 {
        Seq::empty()
    } else {
        Seq::new(counts[(round % 8) as int], |i: int| round % 8 + 1) + lengths_from(
            counts,
            round + 1,
        )
    }
}

/// Take symbols of the given lengths from `bytes[pos..]`, numbering them
/// after the codes already known. Answers the codes and the position
/// after the last symbol.
pub open spec fn take_symbols(
    bytes: Seq<u8>,
    pos: nat,
    codes: Seq<Seq<u8>>,
    lengths: Seq<nat>,
) -> Result<(Seq<Seq<u8>>, nat), ErrorView>
    decreases lengths.len(),
{
    if lengths.len() == 0 {
        Ok((codes, pos))
    } else if codes.len() >= 256 {
        Err(fsst_error("too many FSST symbols"@))
    } else if pos + lengths[0] > bytes.len() {
        Err(fsst_error("symbol bytes truncated"@))
    } else {
        take_symbols(
            bytes,
            pos + lengths[0],
            codes.push(bytes.subrange(pos as int, (pos + lengths[0]) as int)),
            lengths.skip(1),
        )
    }
}

/// All 256 codes, the unused ones empty.
pub open spec fn all_codes(codes: Seq<Seq<u8>>) -> Seq<Seq<u8>> {
    Seq::new(
        256,
        |c: int|
            if c < codes.len() {
                codes[c]
            } else {
                Seq::empty()
            },
    )
}

/// What parsing a serialized table answers: the table and the number of
/// bytes it took, which the table keeps.
pub open spec fn parse_table(bytes: Seq<u8>) -> Result<(SymTableView, nat), ErrorView> {
    if bytes.len() < 17 {
        Err(fsst_error("symbol table header too short"@))
    } else if le(bytes.subrange(4, 8)) != FSST_VERSION {
        Err(
            fsst_error(
                "unexpected FSST version 0x"@ + hex(le(bytes.subrange(4, 8)), 8),
            ),
        )
    } else {
        let zero_terminated = bytes[8] % 2 != 0;
        let reserved: Seq<Seq<u8>> = if zero_terminated {
            seq![Seq::empty()]
        } else {
            Seq::empty()
        };
        match take_symbols(bytes, 17, reserved, lengths_from(stored_counts(bytes), 1)) {
            Ok((codes, used)) => Ok(
                (SymTableView { codes: all_codes(codes), zero_terminated, used }, used),
            ),
            Err(e) => Err(e),
        }
    }
}

/// Decode `input` after `out`: the bytes written, and the failure that
/// stopped the decoding, if any.
pub open spec fn decode_after(codes: Seq<Seq<u8>>, input: Seq<u8>, out: Seq<u8>) -> (
    Seq<u8>,
    Option<ErrorView>,
)
    decreases input.len(),
{
    if input.len() == 0 {
        (out, None)
    } else if input[0] == FSST_ESC {
        if input.len() < 2 {
            (out, Some(fsst_error("FSST escape at end of input"@)))
        } else {
            decode_after(codes, input.skip(2), out.push(input[1]))
        }
    } else if codes[input[0] as int].len() == 0 {
        (
            out,
            Some(
                fsst_error(
                    "FSST code 0x"@ + hex(input[0] as nat, 2) + " references unused symbol"@,
                ),
            ),
        )
    } else {
        decode_after(codes, input.skip(1), out + codes[input[0] as int])
    }
}

/// What decoding one compressed string answers.
pub open spec fn decode_string(codes: Seq<Seq<u8>>, input: Seq<u8>) -> Result<Seq<u8>, ErrorView> {
    let (out, failure) = decode_after(codes, input, Seq::empty());
    match failure {
        None => Ok(out),
        Some(e) => Err(e),
    }
}

/// Every byte of `s` behind an escape.
pub open spec fn escaped(s: Seq<u8>) -> Seq<u8>
    decreases s.len(),
{
    if s.len() == 0 {
        Seq::empty()
    } else {
        seq![FSST_ESC, s[0]] + escaped(s.skip(1))
    }
}

/// Bytes that were all escaped decode to themselves under every table.
pub proof fn lemma_escaped_is_literal(codes: Seq<Seq<u8>>, s: Seq<u8>, out: Seq<u8>)
    ensures
        decode_after(codes, escaped(s), out) == (out + s, None::<ErrorView>),
    decreases s.len(),
{
    if s.len() == 0 {
        assert(out + s == out);
    } else {
        lemma_escaped_is_literal(codes, s.skip(1), out.push(s[0]));
        assert(escaped(s).skip(2) == escaped(s.skip(1)));
        assert(out.push(s[0]) + s.skip(1) == out + s);
    }
}

/// Decoding goes on where it stopped: two inputs in a row decode to the
/// two outputs in a row.
pub proof fn lemma_decode_concat(codes: Seq<Seq<u8>>, a: Seq<u8>, b: Seq<u8>, out: Seq<u8>)
    requires
        decode_after(codes, a, out).1 is None,
    ensures
        decode_after(codes, a + b, out) == decode_after(codes, b, decode_after(codes, a, out).0),
    decreases a.len(),
{
    if a.len() == 0 {
        assert(a + b == b);
    } else if a[0] == FSST_ESC {
        lemma_decode_concat(codes, a.skip(2), b, out.push(a[1]));
        assert((a + b).skip(2) == a.skip(2) + b);
    } else {
        lemma_decode_concat(codes, a.skip(1), b, out + codes[a[0] as int]);
        assert((a + b).skip(1) == a.skip(1) + b);
    }
}

/// A used code stands for its symbol, all of the symbol's bytes.
pub proof fn lemma_code_is_its_symbol(codes: Seq<Seq<u8>>, code: u8, out: Seq<u8>)
    requires
        code != 0xFF,
        codes[code as int].len() > 0,
    ensures
        decode_after(codes, seq![code], out) == (out + codes[code as int], None::<ErrorView>),
        decode_string(codes, seq![code]) == Ok::<Seq<u8>, ErrorView>(codes[code as int]),
{
    let input = seq![code];
    assert(input.skip(1) =~= Seq::<u8>::empty());
    assert(decode_after(codes, input.skip(1), out + codes[code as int]) == (
        out + codes[code as int],
        None::<ErrorView>,
    ));
    let start = Seq::<u8>::empty();
    assert(start + codes[code as int] =~= codes[code as int]);
    assert(decode_after(codes, input.skip(1), start + codes[code as int]) == (
        start + codes[code as int],
        None::<ErrorView>,
    ));
}

/// What a compressed string is made of: codes of symbols, and bytes that
/// stand for themselves.
pub enum Piece {
    Symbol(u8),
    Byte(u8),
}

/// The bytes that pieces stand for.
pub open spec fn meaning(codes: Seq<Seq<u8>>, pieces: Seq<Piece>) -> Seq<u8>
    decreases pieces.len(),
{
    if pieces.len() == 0 {
        Seq::empty()
    } else {
        meaning(codes, pieces.drop_last()) + match pieces.last() {
            Piece::Symbol(code) => codes[code as int],
            Piece::Byte(b) => seq![b],
        }
    }
}

/// The compressed string of pieces: a code as it is, a byte behind 0xFF.
pub open spec fn compressed(pieces: Seq<Piece>) -> Seq<u8>
    decreases pieces.len(),
{
    if pieces.len() == 0 {
        Seq::empty()
    } else {
        compressed(pieces.drop_last()) + match pieces.last() {
            Piece::Symbol(code) => seq![code],
            Piece::Byte(b) => seq![0xFFu8, b],
        }
    }
}

/// How many bytes pieces stand for.
pub open spec fn meaning_len(codes: Seq<Seq<u8>>, pieces: Seq<Piece>) -> nat
    decreases pieces.len(),
{
    if pieces.len() == 0 {
        0
    } else {
        meaning_len(codes, pieces.drop_last()) + match pieces.last() {
            Piece::Symbol(code) => codes[code as int].len(),
            Piece::Byte(_) => 1,
        }
    }
}

/// Decoding a compressed string gives the whole symbols of its codes and
/// its literal bytes, in order, and nothing else.
pub proof fn lemma_decoding_undoes_compression(codes: Seq<Seq<u8>>, pieces: Seq<Piece>)
    requires
        forall|i: int|
            0 <= i < pieces.len() ==> (#[trigger] pieces[i] matches Piece::Symbol(code) ==> code
                != 0xFF && codes[code as int].len() > 0),
    ensures
        decode_string(codes, compressed(pieces)) == Ok::<Seq<u8>, ErrorView>(
            meaning(codes, pieces),
        ),
        meaning(codes, pieces).len() == meaning_len(codes, pieces),
    decreases pieces.len(),
{
    if pieces.len() > 0 {
        let front = pieces.drop_last();
        assert forall|i: int| 0 <= i < front.len() implies (#[trigger] front[i] matches Piece::Symbol(
            code,
        ) ==> code != 0xFF && codes[code as int].len() > 0) by {
            assert(front[i] == pieces[i]);
        }
        lemma_decoding_undoes_compression(codes, front);
        let so_far = meaning(codes, front);
        let last = match pieces.last() {
            Piece::Symbol(code) => seq![code],
            Piece::Byte(b) => seq![0xFFu8, b],
        };
        lemma_decode_concat(codes, compressed(front), last, Seq::empty());
        assert(pieces[pieces.len() - 1] == pieces.last());
        match pieces.last() {
            Piece::Symbol(code) => {
                lemma_code_is_its_symbol(codes, code, so_far);
            },
            Piece::Byte(b) => {
                assert(seq![b].skip(1) =~= Seq::<u8>::empty());
                assert(escaped(seq![b].skip(1)) =~= Seq::<u8>::empty());
                assert(escaped(seq![b]) =~= last);
                lemma_escaped_is_literal(codes, seq![b], so_far);
            },
        }
    }
}

/// A string that decodes has no code without a symbol and no escape at
/// its end: an unused code is refused, and so is a trailing escape.
pub proof fn lemma_bad_codes_are_refused(codes: Seq<Seq<u8>>, front: Seq<Piece>, code: u8)
    requires
        forall|i: int|
            0 <= i < front.len() ==> (#[trigger] front[i] matches Piece::Symbol(c) ==> c != 0xFF
                && codes[c as int].len() > 0),
        code == 0xFF || codes[code as int].len() == 0,
    ensures
        decode_string(codes, compressed(front) + seq![code]) is Err,
{
    lemma_decoding_undoes_compression(codes, front);
    lemma_decode_concat(codes, compressed(front), seq![code], Seq::empty());
}

/// The length of symbol `j` of a serialized table: the histogram counts
/// the symbols of 2 to 8 bytes, which stand first, shorter before longer;
/// those of one byte come last.
pub open spec fn nth_length(bytes: Seq<u8>, j: int) -> nat {
    let two = bytes[10] as int;
    let three = two + bytes[11];
    let four = three + bytes[12];
    let five = four + bytes[13];
    let six = five + bytes[14];
    let seven = six + bytes[15];
    let eight = seven + bytes[16];
    if j < two {
        2
    } else if j < three {
        3
    } else if j < four {
        4
    } else if j < five {
        5
    } else if j < six {
        6
    } else if j < seven {
        7
    } else if j < eight {
        8
    } else {
        1
    }
}

/// How many symbols a serialized table stores. A zero-terminated one
/// counts the empty string among its one-byte symbols and does not store
/// it.
pub open spec fn symbol_count(bytes: Seq<u8>) -> int {
    bytes[10] + bytes[11] + bytes[12] + bytes[13] + bytes[14] + bytes[15] + bytes[16] + (if bytes[8]
        % 2 == 1 && bytes[9] > 0 {
        bytes[9] - 1
    } else {
        bytes[9] as int
    })
}

/// Where symbol `j` of a serialized table starts: behind the header and
/// the symbols before it.
pub open spec fn nth_start(bytes: Seq<u8>, j: int) -> nat
    decreases j,
{
    if j <= 0 {
        17
    } else {
        nth_start(bytes, j - 1) + nth_length(bytes, j - 1)
    }
}

proof fn lemma_lengths(bytes: Seq<u8>)
    ensures
        lengths_from(stored_counts(bytes), 1).len() == symbol_count(bytes),
        forall|j: int|
            0 <= j < symbol_count(bytes) ==> #[trigger] lengths_from(stored_counts(bytes), 1)[j]
                == nth_length(bytes, j),
{
    let counts = stored_counts(bytes);
    assert(lengths_from(counts, 9) == Seq::<nat>::empty());
    let l8 = lengths_from(counts, 8);
    let l7 = lengths_from(counts, 7);
    let l6 = lengths_from(counts, 6);
    let l5 = lengths_from(counts, 5);
    let l4 = lengths_from(counts, 4);
    let l3 = lengths_from(counts, 3);
    let l2 = lengths_from(counts, 2);
    let l1 = lengths_from(counts, 1);
    assert(l8.len() == counts[0]);
    assert(forall|j: int| 0 <= j < l8.len() ==> #[trigger] l8[j] == 1);
    assert(l7.len() == counts[7] + l8.len());
    assert(l6.len() == counts[6] + l7.len());
    assert(l5.len() == counts[5] + l6.len());
    assert(l4.len() == counts[4] + l5.len());
    assert(l3.len() == counts[3] + l4.len());
    assert(l2.len() == counts[2] + l3.len());
    assert(l1.len() == counts[1] + l2.len());
    assert(forall|j: int|
        0 <= j < l7.len() ==> #[trigger] l7[j] == (if j < counts[7] {
            8
        } else {
            l8[j - counts[7]]
        }));
    assert(forall|j: int|
        0 <= j < l6.len() ==> #[trigger] l6[j] == (if j < counts[6] {
            7
        } else {
            l7[j - counts[6]]
        }));
    assert(forall|j: int|
        0 <= j < l5.len() ==> #[trigger] l5[j] == (if j < counts[5] {
            6
        } else {
            l6[j - counts[5]]
        }));
    assert(forall|j: int|
        0 <= j < l4.len() ==> #[trigger] l4[j] == (if j < counts[4] {
            5
        } else {
            l5[j - counts[4]]
        }));
    assert(forall|j: int|
        0 <= j < l3.len() ==> #[trigger] l3[j] == (if j < counts[3] {
            4
        } else {
            l4[j - counts[3]]
        }));
    assert(forall|j: int|
        0 <= j < l2.len() ==> #[trigger] l2[j] == (if j < counts[2] {
            3
        } else {
            l3[j - counts[2]]
        }));
    assert(forall|j: int|
        0 <= j < l1.len() ==> #[trigger] l1[j] == (if j < counts[1] {
            2
        } else {
            l2[j - counts[1]]
        }));
}

proof fn lemma_taken(bytes: Seq<u8>, j: int, codes: Seq<Seq<u8>>, lengths: Seq<nat>)
    requires
        0 <= j,
        j + lengths.len() == symbol_count(bytes),
        forall|k: int| 0 <= k < lengths.len() ==> #[trigger] lengths[k] == nth_length(bytes, j + k),
    ensures
        match take_symbols(bytes, nth_start(bytes, j), codes, lengths) {
            Ok((all, end)) => {
                &&& end == nth_start(bytes, symbol_count(bytes))
                &&& all.len() == codes.len() + lengths.len()
                &&& all.take(codes.len() as int) == codes
                &&& lengths.len() > 0 ==> end <= bytes.len() && all.len() <= 256
                &&& forall|k: int|
                    j <= k < symbol_count(bytes) ==> #[trigger] nth_start(bytes, k)
                        + nth_length(bytes, k) <= end && all[codes.len() + k - j]
                        == bytes.subrange(
                        nth_start(bytes, k) as int,
                        (nth_start(bytes, k) + nth_length(bytes, k)) as int,
                    )
            },
            Err(_) => codes.len() + lengths.len() > 256 || nth_start(bytes, symbol_count(bytes))
                > bytes.len(),
        },
    decreases lengths.len(),
{
    lemma_starts_grow(bytes, j, symbol_count(bytes));
    if lengths.len() == 0 {
        assert(codes.take(codes.len() as int) =~= codes);
    } else {
        assert(lengths[0] == nth_length(bytes, j + 0));
        assert(nth_start(bytes, j + 1) == nth_start(bytes, j) + lengths[0]);
        lemma_starts_grow(bytes, j + 1, symbol_count(bytes));
        if codes.len() < 256 && nth_start(bytes, j) + lengths[0] <= bytes.len() {
            let symbol = bytes.subrange(
                nth_start(bytes, j) as int,
                (nth_start(bytes, j) + lengths[0]) as int,
            );
            let rest = lengths.skip(1);
            assert forall|k: int| 0 <= k < rest.len() implies #[trigger] rest[k] == nth_length(
                bytes,
                j + 1 + k,
            ) by {
                assert(rest[k] == lengths[k + 1]);
            }
            lemma_taken(bytes, j + 1, codes.push(symbol), rest);
            if let Ok((all, end)) = take_symbols(bytes, nth_start(bytes, j), codes, lengths) {
                let front = codes.push(symbol);
                assert(all.take(front.len() as int) == front);
                assert(all.take(codes.len() as int) =~= codes) by {
                    assert forall|i: int| 0 <= i < codes.len() implies all[i] == codes[i] by {
                        assert(all.take(front.len() as int)[i] == front[i]);
                    }
                }
                assert(all[codes.len() as int] == symbol) by {
                    assert(all.take(front.len() as int)[codes.len() as int] == symbol);
                }
                assert forall|k: int| j <= k < symbol_count(bytes) implies #[trigger] nth_start(
                    bytes,
                    k,
                ) + nth_length(bytes, k) <= end && all[codes.len() + k - j] == bytes.subrange(
                    nth_start(bytes, k) as int,
                    (nth_start(bytes, k) + nth_length(bytes, k)) as int,
                ) by {
                    if k > j {
                        assert(all[front.len() + k - (j + 1)] == all[codes.len() + k - j]);
                    } else {
                        lemma_starts_grow(bytes, j + 1, symbol_count(bytes));
                    }
                }
            }
        }
    }
}

proof fn lemma_starts_grow(bytes: Seq<u8>, a: int, b: int)
    requires
        0 <= a <= b,
    ensures
        nth_start(bytes, a) + (b - a) <= nth_start(bytes, b),
    decreases b - a,
{
    if a < b {
        lemma_starts_grow(bytes, a, b - 1);
    }
}

/// A serialized table parses exactly when its version is right, its
/// symbols fit the codes and its bytes hold them all. Its symbols then are
/// the bytes behind the header one after the other, numbered from the
/// first free code on; every other code is unused.
pub proof fn lemma_symbols_are_stored_in_order(bytes: Seq<u8>)
    requires
        bytes.len() >= 17,
        le(bytes.subrange(4, 8)) == 20_190_218,
    ensures
        ({
            let first: int = if bytes[8] % 2 == 1 {
                1
            } else {
                0
            };
            let n = symbol_count(bytes);
            if first + n <= 256 && nth_start(bytes, n) <= bytes.len() {
                parse_table(bytes) matches Ok((table, used)) && {
                    &&& used == nth_start(bytes, n)
                    &&& table.used == used
                    &&& table.zero_terminated == (first == 1)
                    &&& table.codes.len() == 256
                    &&& forall|j: int|
                        0 <= j < n ==> (#[trigger] nth_start(bytes, j)) >= 0 && table.codes[first
                            + j] == bytes.subrange(
                            nth_start(bytes, j) as int,
                            (nth_start(bytes, j) + nth_length(bytes, j)) as int,
                        )
                    &&& forall|c: int|
                        0 <= c < 256 && !(first <= c < first + n) ==> (
                        #[trigger] table.codes[c]).len() == 0
                }
            } else {
                parse_table(bytes) is Err
            }
        }),
{
    let n = symbol_count(bytes);
    let reserved: Seq<Seq<u8>> = if bytes[8] % 2 != 0 {
        seq![Seq::empty()]
    } else {
        Seq::empty()
    };
    lemma_lengths(bytes);
    lemma_taken(bytes, 0, reserved, lengths_from(stored_counts(bytes), 1));
    if let Ok((codes, _)) = take_symbols(
        bytes,
        17,
        reserved,
        lengths_from(stored_counts(bytes), 1),
    ) {
        let table = all_codes(codes);
        let first = reserved.len();
        assert forall|j: int| 0 <= j < n implies (#[trigger] nth_start(bytes, j)) >= 0
            && table[first + j] == bytes.subrange(
            nth_start(bytes, j) as int,
            (nth_start(bytes, j) + nth_length(bytes, j)) as int,
        ) by {
            assert(codes[first + j - 0] == table[first + j]);
        }
        if bytes[8] % 2 != 0 {
            assert(codes[0] == codes.take(1)[0]);
        }
    }
}

/// Decoded FSST symbol table. Symbol bytes are stored contiguously in
/// `symbols` keyed by the code's `(offset, len)` pair.
#[derive(Debug)]
pub struct SymTable {
    /// Concatenated symbol bytes.
    symbols: Vec<u8>,
    /// Per-code (offset into `symbols`, length).
    spans: [(u32, u8); 256],
    /// Whether the symbol table was built in zero-terminated mode.
    zero_terminated: bool,
    /// Serialized length of the header and the symbols.
    used: usize,
}

impl View for SymTable {
    type V = SymTableView;

    closed spec fn view(&self) -> SymTableView {
        SymTableView {
            codes: Seq::new(
                256,
                |c: int|
                    self.symbols@.subrange(
                        self.spans@[c].0 as int,
                        self.spans@[c].0 + self.spans@[c].1,
                    ),
            ),
            zero_terminated: self.zero_terminated,
            used: self.used as nat,
        }
    }
}

impl Clone for SymTable {
    fn clone(&self) -> (r: Self)
        ensures
            r@ == self@,
    {
        proof {
            use_type_invariant(self);
        }
        let symbols: Vec<u8> = self.symbols.clone();
        assert(symbols@ == self.symbols@);
        SymTable {
            symbols,
            spans: self.spans,
            zero_terminated: self.zero_terminated,
            used: self.used,
        }
    }
}

impl SymTable {
    /// Every span lies inside the symbol bytes.
    #[verifier::type_invariant]
    closed spec fn wf(&self) -> bool {
        forall|c: int|
            0 <= c < 256 ==> (#[trigger] self.spans@[c]).0 + self.spans@[c].1 <= self.symbols@.len()
    }

    /// Parse a serialized FSST symbol table. Returns the table plus
    /// the number of input bytes consumed (the caller may have
    /// trailing bytes belonging to a different field).
    #[verifier::loop_isolation(false)]
    pub fn parse(bytes: &[u8]) -> (r: Result<(Self, usize), Error>)
        ensures
            match r {
                Ok((table, used)) => parse_table(bytes@) == Ok::<(SymTableView, nat), ErrorView>(
                    (table@, used as nat),
                ),
                Err(e) => parse_table(bytes@) == Err::<(SymTableView, nat), ErrorView>(e@),
            },
            r matches Ok((table, used)) ==> table@.used == used,
    {
        if bytes.len() < HEADER_LEN {
            return Err(decode_error("fsst", "symbol table header too short"));
        }
        let version_high: u64 = read_le(bytes, 4, 4);
        if version_high != FSST_VERSION as u64 {
            return Err(
                Error::Decode {
                    codec: "fsst",
                    message: Text::of("unexpected FSST version 0x").hex(version_high, 8).done(),
                },
            );
        }
        let zero_terminated: bool = bytes[8] % 2 != 0;
        let mut symbols: Vec<u8> = Vec::new();
        let mut spans: [(u32, u8); 256] = [(0u32, 0u8);256];
        let mut code: usize = if zero_terminated {
            1
        } else {
            0
        };
        let mut pos: usize = HEADER_LEN;
        let ghost counts = stored_counts(bytes@);
        let ghost reserved: Seq<Seq<u8>> = if zero_terminated {
            seq![Seq::empty()]
        } else {
            Seq::empty()
        };
        let ghost all = take_symbols(bytes@, 17, reserved, lengths_from(counts, 1));
        let ghost mut codes = reserved;
        assert(spans_show(spans@, symbols@, codes)) by {
            assert(symbols@.subrange(0, 0) == Seq::<u8>::empty());
            assert(spans@.len() == 256);
        }
        // Rounds 1..=8 store lengths 2, 3, 4, 5, 6, 7, 8, 1.
        let mut round: usize = 1;
        while round <= 8
            invariant
                1 <= round <= 9,
                HEADER_LEN <= pos <= bytes.len(),
                code <= 256,
                codes.len() == code,
                symbols@.len() <= 8 * code,
                all == take_symbols(bytes@, pos as nat, codes, lengths_from(counts, round as nat)),
                spans_show(spans@, symbols@, codes),
            decreases 9 - round,
        {
            let slot: usize = round % 8;
            let symbol_len: usize = slot + 1;
            let mut count: usize = bytes[9 + slot] as usize;
            if slot == 0 && zero_terminated && count > 0 {
                count = count - 1;
            }
            let ghost later = lengths_from(counts, (round + 1) as nat);
            let ghost mut left: Seq<nat> = Seq::new(count as nat, |i: int| symbol_len as nat);
            proof {
                assert(lengths_from(counts, round as nat) == left + later);
            }
            let mut taken: usize = 0;
            while taken < count
                invariant
                    taken <= count,
                    1 <= symbol_len <= 8,
                    HEADER_LEN <= pos <= bytes.len(),
                    code <= 256,
                    codes.len() == code,
                    symbols@.len() <= 8 * code,
                    left == Seq::new((count - taken) as nat, |i: int| symbol_len as nat),
                    all == take_symbols(bytes@, pos as nat, codes, left + later),
                    spans_show(spans@, symbols@, codes),
                decreases count - taken,
            {
                if code >= NUM_CODES {
                    return Err(decode_error("fsst", "too many FSST symbols"));
                }
                if bytes.len() - pos < symbol_len {
                    return Err(decode_error("fsst", "symbol bytes truncated"));
                }
                let end: usize = pos + symbol_len;
                let start: u32 = symbols.len() as u32;
                let ghost symbol = bytes@.subrange(pos as int, end as int);
                let ghost before = symbols@;
                let chunk: &[u8] = vstd::slice::slice_subrange(bytes, pos, end);
                symbols.extend_from_slice(chunk);
                spans[code] = (start, symbol_len as u8);
                proof {
                    assert(symbols@ == before + symbol);
                    assert((left + later).skip(1) == left.skip(1) + later);
                    left = left.skip(1);
                    assert(left == Seq::new((count - taken - 1) as nat, |i: int| symbol_len as nat));
                    lemma_spans_push(spans@, before, codes, symbol);
                    codes = codes.push(symbol);
                }
                code = code + 1;
                pos = end;
                taken = taken + 1;
            }
            proof {
                assert(left + later == later);
            }
            round = round + 1;
        }
        let table = SymTable { symbols, spans, zero_terminated, used: pos };
        proof {
            assert(table@.codes =~= all_codes(codes)) by {
                assert forall|c: int| 0 <= c < 256 implies table@.codes[c] == all_codes(codes)[c] by {
                    assert(spans@[c].0 + spans@[c].1 <= symbols@.len());
                }
            }
        }
        Ok((table, pos))
    }

    /// Number of bytes of serialized header and symbols this table
    /// occupies. Equal to the second tuple element returned by
    /// [`SymTable::parse`].
    pub fn header_len(&self) -> (r: usize)
        ensures
            r == self@.used,
    {
        self.used
    }

    /// Whether the table was created in zero-terminated mode.
    pub fn zero_terminated(&self) -> (r: bool)
        ensures
            r == self@.zero_terminated,
    {
        self.zero_terminated
    }

    /// Symbol bytes mapped to `code`. Returns `&[]` for unused codes.
    fn symbol(&self, code: u8) -> (r: &[u8])
        ensures
            r@ == self@.codes[code as int],
    {
        proof {
            use_type_invariant(self);
        }
        let span: (u32, u8) = self.spans[code as usize];
        let start: usize = span.0 as usize;
        assert(self.spans@[code as int].0 + self.spans@[code as int].1 <= self.symbols.len());
        let end: usize = start + span.1 as usize;
        vstd::slice::slice_subrange(self.symbols.as_slice(), start, end)
    }

    /// Decode a single compressed string, appending to `out`.
    pub fn decode(&self, compressed: &[u8], out: &mut Vec<u8>) -> (r: Result<(), Error>)
        ensures
            ({
                let (bytes, failure) = decode_after(self@.codes, compressed@, old(out)@);
                &&& final(out)@ == bytes
                &&& match r {
                    Ok(_) => failure is None,
                    Err(e) => failure == Some(e@),
                }
            }),
    {
        let mut i: usize = 0;
        assert(compressed@.skip(0) == compressed@);
        while i < compressed.len()
            invariant
                i <= compressed.len(),
                decode_after(self@.codes, compressed@, old(out)@) == decode_after(
                    self@.codes,
                    compressed@.skip(i as int),
                    out@,
                ),
            decreases compressed.len() - i,
        {
            let ghost rest = compressed@.skip(i as int);
            let byte: u8 = compressed[i];
            i = i + 1;
            if byte == FSST_ESC {
                if i >= compressed.len() {
                    return Err(decode_error("fsst", "FSST escape at end of input"));
                }
                out.push(compressed[i]);
                i = i + 1;
                assert(rest.skip(2) == compressed@.skip(i as int));
            } else {
                let symbol: &[u8] = self.symbol(byte);
                if symbol.len() == 0 {
                    return Err(
                        Error::Decode {
                            codec: "fsst",
                            message: Text::of("FSST code 0x").hex(byte as u64, 2).str(
                                " references unused symbol",
                            ).done(),
                        },
                    );
                }
                let ghost before = out@;
                out.extend_from_slice(symbol);
                assert(out@ == before + symbol@);
                assert(rest.skip(1) == compressed@.skip(i as int));
            }
        }
        Ok(())
    }

    /// Convenience wrapper that allocates the output vector.
    pub fn decode_to_vec(&self, compressed: &[u8]) -> (r: Result<Vec<u8>, Error>)
        ensures
            outcome(r, decode_string(self@.codes, compressed@)),
    {
        let mut out: Vec<u8> = Vec::new();
        match self.decode(compressed, &mut out) {
            Ok(()) => Ok(out),
            Err(e) => Err(e),
        }
    }
}

/// `spans` show the first codes inside `symbols`, and nothing for the rest.
spec fn spans_show(spans: Seq<(u32, u8)>, symbols: Seq<u8>, codes: Seq<Seq<u8>>) -> bool {
    &&& spans.len() == 256
    &&& codes.len() <= 256
    &&& forall|c: int|
        #![trigger spans[c]]
        0 <= c < 256 ==> spans[c].0 + spans[c].1 <= symbols.len() && symbols.subrange(
            spans[c].0 as int,
            spans[c].0 + spans[c].1,
        ) == (if c < codes.len() {
            codes[c]
        } else {
            Seq::<u8>::empty()
        })
}

proof fn lemma_spans_push(
    spans: Seq<(u32, u8)>,
    symbols: Seq<u8>,
    codes: Seq<Seq<u8>>,
    symbol: Seq<u8>,
)
    requires
        codes.len() < 256,
        spans.len() == 256,
        symbol.len() < 256,
        spans[codes.len() as int] == (symbols.len() as u32, symbol.len() as u8),
        symbols.len() <= u32::MAX,
        forall|c: int|
            #![trigger spans[c]]
            0 <= c < 256 && c != codes.len() ==> spans[c].0 + spans[c].1 <= symbols.len()
                && symbols.subrange(spans[c].0 as int, spans[c].0 + spans[c].1) == (if c
                < codes.len() {
                codes[c]
            } else {
                Seq::<u8>::empty()
            }),
    ensures
        spans_show(spans, symbols + symbol, codes.push(symbol)),
{
    let after = symbols + symbol;
    assert forall|c: int| #![trigger spans[c]] 0 <= c < 256 implies spans[c].0 + spans[c].1
        <= after.len() && after.subrange(spans[c].0 as int, spans[c].0 + spans[c].1) == (if c
        < codes.push(symbol).len() {
        codes.push(symbol)[c]
    } else {
        Seq::<u8>::empty()
    }) by {
        if c == codes.len() {
            assert(after.subrange(symbols.len() as int, after.len() as int) == symbol);
        } else {
            assert(after.subrange(spans[c].0 as int, spans[c].0 + spans[c].1) == symbols.subrange(
                spans[c].0 as int,
                spans[c].0 + spans[c].1,
            ));
        }
    }
}

} // verus!
