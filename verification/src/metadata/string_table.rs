//! String tables: one buffer sliced by an index of offsets, with optional
//! FSST coding of each slice.

use crate::collect::{collect, collect_from, lemma_collect_all};
use crate::error::{Error, ErrorView};
use crate::metadata::fsst::{
    Piece, SymTable, SymTableView, compressed, decode_string, lemma_decoding_undoes_compression,
    meaning, parse_table,
};
use crate::text::{Text, dec};
use vstd::prelude::*;

verus! {

/// A decode failure of the metadata model.
pub open spec fn model_error(message: Seq<char>) -> ErrorView {
    ErrorView::Decode { codec: "frozen2-model"@, message }
}

/// The sum of a sequence of numbers.
pub open spec fn sum_of(s: Seq<u32>) -> nat
    decreases s.len(),
{
    if s.len() == 0 {
        0
    } else {
        sum_of(s.drop_last()) + s.last() as nat
    }
}

/// The running sums of `deltas`, modulo 2^32.
pub open spec fn prefix_sums(deltas: Seq<u32>) -> Seq<u32> {
    Seq::new(
        deltas.len(),
        |i: int| (sum_of(deltas.take(i + 1)) % 0x1_0000_0000) as u32,
    )
}

/// The byte strings behind a list of byte vectors.
pub open spec fn byte_strings(v: Seq<Vec<u8>>) -> Seq<Seq<u8>> {
    v.map_values(|b: Vec<u8>| b@)
}

/// The bytes behind an optional slice.
pub open spec fn optional_bytes(s: Option<&[u8]>) -> Option<Seq<u8>> {
    match s {
        Some(b) => Some(b@),
        None => None,
    }
}

spec fn optional_table(t: Option<SymTable>) -> Option<SymTableView> {
    match t {
        Some(table) => Some(table@),
        None => None,
    }
}

/// The offsets that an index records. A packed index is stored
/// delta-compressed with the leading zero offset omitted.
pub open spec fn table_offsets(index: Seq<u32>, packed: bool) -> Seq<u32> {
    if packed {
        seq![0u32] + prefix_sums(index)
    } else {
        index
    }
}

/// The symbol table of a string table, if it has one.
pub open spec fn table_symbols(symtab: Option<Seq<u8>>) -> Result<
    Option<SymTableView>,
    ErrorView,
> {
    match symtab {
        Some(bytes) => match parse_table(bytes) {
            Ok((table, _)) => Ok(Some(table)),
            Err(e) => Err(e),
        },
        None => Ok(None),
    }
}

/// String `i` of a table: the window between two offsets, decoded.
pub open spec fn table_string(
    buffer: Seq<u8>,
    symbols: Option<SymTableView>,
    offsets: Seq<u32>,
) -> spec_fn(nat) -> Result<Seq<u8>, ErrorView> {
    |i: nat|
        {
            let start = offsets[i as int];
            let end = offsets[(i + 1) as int];
            if end < start || end > buffer.len() {
                Err(
                    model_error(
                        "string_table slice "@ + dec(start as nat) + ".."@ + dec(end as nat)
                            + " out of buffer ("@ + dec(buffer.len()) + " bytes)"@,
                    ),
                )
            } else {
                let window = buffer.subrange(start as int, end as int);
                match symbols {
                    Some(table) => decode_string(table.codes, window),
                    None => Ok(window),
                }
            }
        }
}

/// The strings of a table. Each window is an independent FSST bytestream
/// when there is a symbol table, so windows are sliced before they are
/// decoded.
pub open spec fn table_strings(
    buffer: Seq<u8>,
    symtab: Option<Seq<u8>>,
    index: Seq<u32>,
    packed: bool,
) -> Result<Seq<Seq<u8>>, ErrorView> {
    let offsets = table_offsets(index, packed);
    if offsets.len() < 2 {
        Ok(Seq::empty())
    } else {
        match table_symbols(symtab) {
            Ok(symbols) => collect(
                (offsets.len() - 1) as nat,
                table_string(buffer, symbols, offsets),
            ),
            Err(e) => Err(e),
        }
    }
}

pub proof fn lemma_sum_push(s: Seq<u32>, i: int)
    requires
        0 <= i < s.len(),
    ensures
        sum_of(s.take(i + 1)) == sum_of(s.take(i)) + s[i],
{
    assert(s.take(i + 1).drop_last() == s.take(i));
}

/// The running sums of the differences of an offset list that starts at
/// zero are the offsets behind the first.
pub proof fn lemma_prefix_sums_undo_differences(offsets: Seq<u32>, deltas: Seq<u32>)
    requires
        offsets.len() == deltas.len() + 1,
        offsets[0] == 0,
        forall|i: int|
            0 <= i < deltas.len() ==> (#[trigger] deltas[i] + offsets[i]) % 0x1_0000_0000
                == offsets[i + 1],
    ensures
        seq![0u32] + prefix_sums(deltas) == offsets,
{
    let sums = seq![0u32] + prefix_sums(deltas);
    assert forall|i: int| 0 <= i < offsets.len() implies sums[i] == offsets[i] by {
        lemma_running_sum(offsets, deltas, i);
    }
    assert(sums =~= offsets);
}

/// A sum that wraps at every step ends where one that wraps once does.
proof fn lemma_wrapped_step(sum: int, step: int)
    ensures
        (sum + step) % 0x1_0000_0000 == (step + sum % 0x1_0000_0000) % 0x1_0000_0000,
{
    vstd::arithmetic::div_mod::lemma_add_mod_noop(step, sum, 0x1_0000_0000);
    vstd::arithmetic::div_mod::lemma_add_mod_noop(step, sum % 0x1_0000_0000, 0x1_0000_0000);
}

proof fn lemma_running_sum(offsets: Seq<u32>, deltas: Seq<u32>, i: int)
    requires
        offsets.len() == deltas.len() + 1,
        offsets[0] == 0,
        forall|i: int|
            0 <= i < deltas.len() ==> (#[trigger] deltas[i] + offsets[i]) % 0x1_0000_0000
                == offsets[i + 1],
        0 <= i < offsets.len(),
    ensures
        sum_of(deltas.take(i)) % 0x1_0000_0000 == offsets[i],
    decreases i,
{
    if i > 0 {
        lemma_running_sum(offsets, deltas, i - 1);
        lemma_sum_push(deltas, i - 1);
        lemma_wrapped_step(sum_of(deltas.take(i - 1)) as int, deltas[i - 1] as int);
        assert((deltas[i - 1] + offsets[i - 1]) % 0x1_0000_0000 == offsets[i]);
    } else {
        assert(deltas.take(0).len() == 0);
    }
}

/// A packed index and the plain index of the same offsets decode to the
/// same strings.
pub proof fn lemma_packed_and_plain_agree(
    buffer: Seq<u8>,
    symtab: Option<Seq<u8>>,
    plain: Seq<u32>,
    packed: Seq<u32>,
)
    requires
        plain.len() == packed.len() + 1,
        plain[0] == 0,
        forall|i: int|
            0 <= i < packed.len() ==> (#[trigger] packed[i] + plain[i]) % 0x1_0000_0000
                == plain[i + 1],
    ensures
        table_strings(buffer, symtab, packed, true) == table_strings(buffer, symtab, plain, false),
{
    lemma_prefix_sums_undo_differences(plain, packed);
}

/// Storing strings one after the other with the offsets between them, and
/// reading the table, gives the strings back.
pub proof fn lemma_plain_table_reads_back(buffer: Seq<u8>, index: Seq<u32>, strings: Seq<Seq<u8>>)
    requires
        index.len() == strings.len() + 1,
        forall|i: int|
            #![trigger strings[i]]
            0 <= i < strings.len() ==> {
                &&& index[i] <= index[i + 1] <= buffer.len()
                &&& buffer.subrange(index[i] as int, index[i + 1] as int) == strings[i]
            },
    ensures
        table_strings(buffer, None, index, false) == Ok::<Seq<Seq<u8>>, ErrorView>(strings),
{
    let get = table_string(buffer, None, index);
    assert forall|j: nat| j < strings.len() implies #[trigger] get(j) == Ok::<Seq<u8>, ErrorView>(
        strings[j as int],
    ) by {
        assert(strings[j as int] == strings[j as int]);
    }
    if strings.len() > 0 {
        lemma_collect_all(strings.len(), strings, get);
    } else {
        assert(strings =~= Seq::<Seq<u8>>::empty());
    }
}

/// Storing compressed strings one after the other with the offsets between
/// them, and reading the table with its symbols, gives the bytes that the
/// strings stand for: each string is decoded on its own, from its own
/// offset to the next.
pub proof fn lemma_compressed_table_reads_back(
    buffer: Seq<u8>,
    symtab: Seq<u8>,
    index: Seq<u32>,
    strings: Seq<Seq<Piece>>,
)
    requires
        parse_table(symtab) is Ok,
        index.len() == strings.len() + 1,
        strings.len() > 0,
        forall|i: int, k: int|
            #![trigger strings[i][k]]
            0 <= i < strings.len() && 0 <= k < strings[i].len() ==> (
            strings[i][k] matches Piece::Symbol(code) ==> code != 0xFF
                && parse_table(symtab)->Ok_0.0.codes[code as int].len() > 0),
        forall|i: int|
            #![trigger strings[i]]
            0 <= i < strings.len() ==> {
                &&& index[i] <= index[i + 1] <= buffer.len()
                &&& buffer.subrange(index[i] as int, index[i + 1] as int) == compressed(strings[i])
            },
    ensures
        table_strings(buffer, Some(symtab), index, false) == Ok::<Seq<Seq<u8>>, ErrorView>(
            Seq::new(
                strings.len(),
                |i: int| meaning(parse_table(symtab)->Ok_0.0.codes, strings[i]),
            ),
        ),
{
    let table = parse_table(symtab)->Ok_0.0;
    let get = table_string(buffer, Some(table), index);
    let want = Seq::new(strings.len(), |i: int| meaning(table.codes, strings[i]));
    assert forall|j: nat| j < strings.len() implies #[trigger] get(j) == Ok::<Seq<u8>, ErrorView>(
        want[j as int],
    ) by {
        let pieces = strings[j as int];
        assert forall|k: int| 0 <= k < pieces.len() implies (#[trigger] pieces[k] matches Piece::Symbol(
            code,
        ) ==> code != 0xFF && table.codes[code as int].len() > 0) by {
            assert(strings[j as int][k] == pieces[k]);
        }
        lemma_decoding_undoes_compression(table.codes, pieces);
    }
    lemma_collect_all(strings.len(), want, get);
}

/// A packed index yields one string per delta.
pub proof fn lemma_packed_count(buffer: Seq<u8>, symtab: Option<Seq<u8>>, packed: Seq<u32>)
    requires
        table_strings(buffer, symtab, packed, true) is Ok,
    ensures
        table_strings(buffer, symtab, packed, true)->Ok_0.len() == packed.len(),
{
    let offsets = table_offsets(packed, true);
    if offsets.len() >= 2 {
        let symbols = table_symbols(symtab)->Ok_0;
        crate::collect::lemma_collect_ok(
            (offsets.len() - 1) as nat,
            table_string(buffer, symbols, offsets),
        );
    }
}

/// Inclusive prefix sum of a delta-packed `u32` sequence. The first
/// element is treated as the initial value; each subsequent element
/// is the difference from its predecessor.
pub fn inclusive_prefix_sum_u32(deltas: &[u32]) -> (r: Vec<u32>)
    ensures
        r@ == prefix_sums(deltas@),
{
    let mut out: Vec<u32> = Vec::new();
    let mut acc: u32 = 0;
    let mut i: usize = 0;
    while i < deltas.len()
        invariant
            i <= deltas.len(),
            out@.len() == i,
            acc == sum_of(deltas@.take(i as int)) % 0x1_0000_0000,
            forall|j: int| 0 <= j < i ==> #[trigger] out@[j] == prefix_sums(deltas@)[j],
        decreases deltas.len() - i,
    {
        proof {
            lemma_sum_push(deltas@, i as int);
        }
        acc = acc.wrapping_add(deltas[i]);
        out.push(acc);
        i = i + 1;
    }
    assert(out@ =~= prefix_sums(deltas@));
    out
}

/// Slice a `string_table` buffer into its elements.
///
/// `index` holds the offsets recorded in the table. A packed index is
/// stored delta-compressed with the leading zero offset omitted, so N
/// strings are stored as N deltas and the reconstructed index has N + 1
/// entries. When `symtab` is present each window is an independent FSST
/// bytestream that decodes to one source string, so windows are sliced
/// before they are decoded.
pub fn decode_string_table(
    buffer: &[u8],
    symtab: Option<&[u8]>,
    index: &[u32],
    packed: bool,
) -> (r: Result<Vec<Vec<u8>>, Error>)
    ensures
        ({
            let want = table_strings(
                buffer@,
                optional_bytes(symtab),
                index@,
                packed,
            );
            match r {
                Ok(v) => want == Ok::<Seq<Seq<u8>>, ErrorView>(byte_strings(v@)),
                Err(e) => want == Err::<Seq<Seq<u8>>, ErrorView>(e@),
            }
        }),
{
    let ghost symtab_bytes = optional_bytes(symtab);
    let offsets: Vec<u32> = if packed {
        let mut all: Vec<u32> = Vec::new();
        all.push(0u32);
        let mut sums: Vec<u32> = inclusive_prefix_sum_u32(index);
        all.append(&mut sums);
        assert(all@ =~= table_offsets(index@, packed));
        all
    } else {
        vstd::slice::slice_to_vec(index)
    };
    assert(offsets@ == table_offsets(index@, packed));
    if offsets.len() < 2 {
        let none: Vec<Vec<u8>> = Vec::new();
        assert(byte_strings(none@) =~= Seq::<Seq<u8>>::empty());
        return Ok(none);
    }
    let table: Option<SymTable> = match symtab {
        Some(bytes) => match SymTable::parse(bytes) {
            Ok((table, _)) => Some(table),
            Err(e) => {
                return Err(e);
            },
        },
        None => None,
    };
    let ghost symbols = optional_table(table);
    let count: usize = offsets.len() - 1;
    let ghost get = table_string(buffer@, symbols, offsets@);
    let mut out: Vec<Vec<u8>> = Vec::new();
    assert(byte_strings(out@) =~= Seq::<Seq<u8>>::empty());
    let mut i: usize = 0;
    while i < count
        invariant
            i <= count,
            count + 1 == offsets@.len(),
            symbols == optional_table(table),
            get == table_string(buffer@, symbols, offsets@),
            offsets@ == table_offsets(index@, packed),
            symtab_bytes == optional_bytes(symtab),
            count >= 1,
            table_symbols(symtab_bytes) == Ok::<Option<SymTableView>, ErrorView>(symbols),
            collect(count as nat, get) == collect_from(
                count as nat,
                i as nat,
                byte_strings(out@),
                get,
            ),
        decreases count - i,
    {
        let start: usize = offsets[i] as usize;
        let end: usize = offsets[i + 1] as usize;
        if end < start || end > buffer.len() {
            return Err(
                Error::Decode {
                    codec: "frozen2-model",
                    message: Text::of("string_table slice ").num(start as u64).str("..").num(
                        end as u64,
                    ).str(" out of buffer (").num(buffer.len() as u64).str(" bytes)").done(),
                },
            );
        }
        let window: &[u8] = vstd::slice::slice_subrange(buffer, start, end);
        let decoded: Vec<u8> = match &table {
            Some(table) => match table.decode_to_vec(window) {
                Ok(v) => v,
                Err(e) => {
                    return Err(e);
                },
            },
            None => vstd::slice::slice_to_vec(window),
        };
        let ghost before = out@;
        let ghost d = decoded@;
        out.push(decoded);
        assert(byte_strings(out@) =~= byte_strings(before).push(d));
        i = i + 1;
    }
    Ok(out)
}

} // verus!
