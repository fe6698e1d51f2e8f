//! Chunk arithmetic: hole lengths and the cumulative end offset of every
//! chunk within its file.

use crate::error::{Error, ErrorView, viewed};
use crate::metadata::model::Chunk;
use crate::text::{Text, dec};
use vstd::prelude::*;

verus! {

/// A failure of the filesystem layer.
pub open spec fn fs_error(message: Seq<char>) -> ErrorView {
    ErrorView::Decode { codec: "fs"@, message }
}

pub(crate) fn corrupt(message: Text) -> (e: Error)
    ensures
        e@ == fs_error(message@),
{
    Error::Decode { codec: "fs", message: message.done() }
}

/// Sentinel `chunk.offset` marking a hole whose length lives in the
/// `large_hole_size` table rather than in the chunk itself.
///
/// Images use `u32::MAX` across every block size that populates the
/// table. `BLOCK_SIZE - 1` is a legitimate inline offset, for a hole
/// whose length leaves exactly that remainder, so treating it as the
/// sentinel would misread ordinary sparse files.
pub const LARGE_HOLE_SENTINEL: u32 = u32::MAX;

/// What the length of a chunk depends on besides the chunk.
#[verifier::ext_equal]
pub struct HoleRules {
    pub hole_block_index: Option<u32>,
    pub block_size: u32,
    pub large_hole_size: Seq<u64>,
}

/// The length of a hole.
pub open spec fn hole_len(chunk: Chunk, block_size: u32, large: Seq<u64>) -> Result<
    u64,
    ErrorView,
> {
    if chunk.offset == LARGE_HOLE_SENTINEL {
        if chunk.size < large.len() {
            Ok(large[chunk.size as int])
        } else {
            Err(
                fs_error(
                    "large_hole_size index "@ + dec(chunk.size as nat) + " out of range"@,
                ),
            )
        }
    } else if chunk.size * block_size + chunk.offset > u64::MAX {
        Err(fs_error("hole length overflow"@))
    } else {
        Ok((chunk.size * block_size + chunk.offset) as u64)
    }
}

impl HoleRules {
    /// Whether a chunk is a hole.
    pub open spec fn is_hole(self, chunk: Chunk) -> bool {
        self.hole_block_index == Some(chunk.block)
    }

    /// The number of bytes a chunk contributes to its file.
    pub open spec fn len(self, chunk: Chunk) -> Result<u64, ErrorView> {
        if self.is_hole(chunk) {
            hole_len(chunk, self.block_size, self.large_hole_size)
        } else {
            Ok(chunk.size as u64)
        }
    }

    /// The number of bytes that chunks `from..to` contribute; a chunk
    /// without a length counts as empty.
    pub open spec fn total(self, chunks: Seq<Chunk>, from: int, to: int) -> nat
        decreases to - from,
    {
        if from >= to {
            0
        } else {
            self.total(chunks, from, to - 1) + (match self.len(chunks[to - 1]) {
                Ok(n) => n as nat,
                Err(_) => 0,
            })
        }
    }
}

/// The complaint about a chunk range outside the chunks.
pub open spec fn chunk_range_error(start: nat, end: nat, count: nat) -> ErrorView {
    fs_error(
        "chunk range ["@ + dec(start) + ", "@ + dec(end) + ") out of "@ + dec(count)
            + " chunks"@,
    )
}

/// The end offsets of chunks `i..end` of one file, the file holding
/// `cursor` bytes so far, written into `ends`.
pub open spec fn file_ends(
    rules: HoleRules,
    chunks: Seq<Chunk>,
    i: int,
    end: int,
    cursor: nat,
    ends: Seq<u64>,
) -> Result<Seq<u64>, ErrorView>
    decreases end - i,
{
    if i >= end {
        Ok(ends)
    } else {
        match rules.len(chunks[i]) {
            Err(e) => Err(e),
            Ok(len) => if cursor + len > u64::MAX {
                Err(fs_error("file size overflows u64"@))
            } else {
                file_ends(
                    rules,
                    chunks,
                    i + 1,
                    end,
                    cursor + len as nat,
                    ends.update(i, (cursor + len) as u64),
                )
            },
        }
    }
}

/// The end offsets of the files from slot `k` of the chunk table on,
/// written into `ends`.
pub open spec fn ends_from(
    rules: HoleRules,
    chunks: Seq<Chunk>,
    table: Seq<u32>,
    k: int,
    ends: Seq<u64>,
) -> Result<Seq<u64>, ErrorView>
    decreases table.len() - k,
{
    if k + 1 >= table.len() {
        Ok(ends)
    } else if table[k + 1] < table[k] || table[k + 1] > chunks.len() {
        Err(chunk_range_error(table[k] as nat, table[k + 1] as nat, chunks.len()))
    } else {
        match file_ends(rules, chunks, table[k] as int, table[k + 1] as int, 0, ends) {
            Err(e) => Err(e),
            Ok(more) => ends_from(rules, chunks, table, k + 1, more),
        }
    }
}

/// The end offset of every chunk within its own file; zero for chunks of
/// no file.
pub open spec fn chunk_ends(rules: HoleRules, chunks: Seq<Chunk>, table: Seq<u32>) -> Result<
    Seq<u64>,
    ErrorView,
> {
    ends_from(rules, chunks, table, 0, Seq::new(chunks.len(), |i: int| 0u64))
}

/// Whether the first `upto` neighbours of a chunk table are in order and
/// inside the chunks.
pub open spec fn table_sorted(chunks: Seq<Chunk>, table: Seq<u32>, upto: int) -> bool {
    forall|k: int, j: int|
        0 <= k && k + 1 == j && j < table.len() && k < upto ==> #[trigger] table[k]
            <= #[trigger] table[j] && table[j] <= chunks.len()
}

/// What successful chunk ends look like: the table's slots are in order
/// and inside the chunks, every chunk of a file has a length, and its end
/// is the number of bytes of the file up to and including it.
#[verifier::opaque]
pub open spec fn ends_hold(
    rules: HoleRules,
    chunks: Seq<Chunk>,
    table: Seq<u32>,
    ends: Seq<u64>,
    upto: int,
) -> bool {
    &&& ends.len() == chunks.len()
    &&& table_sorted(chunks, table, upto)
    &&& forall|k: int, j: int, i: int|
        0 <= k && k + 1 == j && j < table.len() && k < upto && (#[trigger] table[k]) <= i < (
        #[trigger] table[j]) ==> rules.len(#[trigger] chunks[i]) is Ok && ends[i] == rules.total(
            chunks,
            table[k] as int,
            i + 1,
        )
}

proof fn lemma_total_step(rules: HoleRules, chunks: Seq<Chunk>, from: int, i: int)
    requires
        from <= i,
    ensures
        rules.total(chunks, from, i + 1) == rules.total(chunks, from, i) + (match rules.len(
            chunks[i],
        ) {
            Ok(n) => n as nat,
            Err(_) => 0,
        }),
{
}

/// Cutting a run of chunks in two adds up.
pub proof fn lemma_total_split(rules: HoleRules, chunks: Seq<Chunk>, a: int, b: int, c: int)
    requires
        a <= b <= c,
    ensures
        rules.total(chunks, a, c) == rules.total(chunks, a, b) + rules.total(chunks, b, c),
    decreases c - b,
{
    if b < c {
        lemma_total_split(rules, chunks, a, b, c - 1);
    }
}

proof fn lemma_file_ends(
    rules: HoleRules,
    chunks: Seq<Chunk>,
    start: int,
    i: int,
    end: int,
    ends: Seq<u64>,
)
    requires
        0 <= start <= i <= end <= chunks.len(),
        ends.len() == chunks.len(),
        rules.total(chunks, start, i) <= u64::MAX,
        file_ends(rules, chunks, i, end, rules.total(chunks, start, i), ends) is Ok,
    ensures
        ({
            let all = file_ends(
                rules,
                chunks,
                i,
                end,
                rules.total(chunks, start, i),
                ends,
            )->Ok_0;
            &&& all.len() == chunks.len()
            &&& forall|j: int| 0 <= j < chunks.len() && (j < i || j >= end) ==> all[j] == ends[j]
            &&& forall|j: int|
                i <= j < end ==> rules.len(#[trigger] chunks[j]) is Ok && all[j] == rules.total(
                    chunks,
                    start,
                    j + 1,
                )
        }),
    decreases end - i,
{
    if i < end {
        lemma_total_step(rules, chunks, start, i);
        let cursor = rules.total(chunks, start, i + 1);
        lemma_file_ends(rules, chunks, start, i + 1, end, ends.update(i, cursor as u64));
    }
}

proof fn lemma_ends_from(
    rules: HoleRules,
    chunks: Seq<Chunk>,
    table: Seq<u32>,
    k: int,
    ends: Seq<u64>,
)
    requires
        0 <= k,
        ends_hold(rules, chunks, table, ends, k),
        ends_from(rules, chunks, table, k, ends) is Ok,
    ensures
        ends_hold(
            rules,
            chunks,
            table,
            ends_from(rules, chunks, table, k, ends)->Ok_0,
            table.len() as int,
        ),
    decreases table.len() - k,
{
    reveal(ends_hold);
    if k + 1 < table.len() {
        let s = table[k] as int;
        let e = table[k + 1] as int;
        lemma_file_ends(rules, chunks, s, s, e, ends);
        let more = file_ends(rules, chunks, s, e, 0, ends)->Ok_0;
        assert(ends_hold(rules, chunks, table, more, k + 1)) by {
            assert forall|k2: int, j: int, i: int|
                0 <= k2 && k2 + 1 == j && j < table.len() && k2 < k + 1 && (#[trigger] table[k2])
                    <= i < (#[trigger] table[j]) implies rules.len(#[trigger] chunks[i]) is Ok
                && more[i] == rules.total(chunks, table[k2] as int, i + 1) by {
                if k2 < k {
                    lemma_table_sorted(chunks, table, k2 + 1, k, k);
                    assert(more[i] == ends[i]);
                }
            }
        }
        lemma_ends_from(rules, chunks, table, k + 1, more);
    }
}

/// A table whose neighbours are in order is in order.
pub proof fn lemma_table_sorted(chunks: Seq<Chunk>, table: Seq<u32>, a: int, b: int, upto: int)
    requires
        0 <= a <= b <= upto,
        b < table.len(),
        table_sorted(chunks, table, upto),
    ensures
        table[a] <= table[b],
    decreases b - a,
{
    if a < b {
        lemma_table_sorted(chunks, table, a, b - 1, upto);
        assert(table[b - 1] <= table[b - 1 + 1]);
    }
}

/// Chunk ends that were built hold.
pub proof fn lemma_chunk_ends_hold(rules: HoleRules, chunks: Seq<Chunk>, table: Seq<u32>)
    requires
        chunk_ends(rules, chunks, table) is Ok,
    ensures
        ends_hold(
            rules,
            chunks,
            table,
            chunk_ends(rules, chunks, table)->Ok_0,
            table.len() as int,
        ),
        chunk_ends(rules, chunks, table)->Ok_0.len() == chunks.len(),
{
    reveal(ends_hold);
    lemma_ends_from(rules, chunks, table, 0, Seq::new(chunks.len(), |i: int| 0u64));
}

/// The chunks of one slot of the table are in range, and each of them ends
/// where the lengths up to it add up to.
pub proof fn lemma_ends_at(
    rules: HoleRules,
    chunks: Seq<Chunk>,
    table: Seq<u32>,
    ends: Seq<u64>,
    k: int,
)
    requires
        ends_hold(rules, chunks, table, ends, table.len() as int),
        0 <= k,
        k + 1 < table.len(),
    ensures
        ends.len() == chunks.len(),
        table[k] <= table[k + 1] <= chunks.len(),
        forall|i: int|
            table[k] <= i < table[k + 1] ==> rules.len(#[trigger] chunks[i]) is Ok && ends[i]
                == rules.total(chunks, table[k] as int, i + 1),
{
    reveal(ends_hold);
    assert(table[k] <= table[k + 1]);
}

/// Decoded length of a hole chunk.
///
/// The length is stored as `size * block_size + offset`, unless
/// `offset` is [`LARGE_HOLE_SENTINEL`], in which case `size` indexes
/// the `large_hole_size` table.
pub fn hole_length(chunk: &Chunk, block_size: u32, large_hole_size: &[u64]) -> (r: Result<
    u64,
    Error,
>)
    ensures
        viewed(r) == hole_len(*chunk, block_size, large_hole_size@),
{
    if chunk.offset == LARGE_HOLE_SENTINEL {
        let idx: usize = chunk.size as usize;
        if idx < large_hole_size.len() {
            return Ok(large_hole_size[idx]);
        }
        return Err(
            corrupt(Text::of("large_hole_size index ").num(idx as u64).str(" out of range")),
        );
    }
    assert(chunk.size * block_size <= 0xffff_ffff * 0xffff_ffff) by (nonlinear_arith)
        requires
            chunk.size <= 0xffff_ffff,
            block_size <= 0xffff_ffff,
    ;
    let wide: u128 = (chunk.size as u128) * (block_size as u128) + chunk.offset as u128;
    if wide > u64::MAX as u128 {
        return Err(corrupt(Text::of("hole length overflow")));
    }
    Ok(wide as u64)
}

/// The number of bytes a chunk contributes to its file.
pub fn chunk_len(
    chunk: &Chunk,
    hole_block_index: Option<u32>,
    block_size: u32,
    large_hole_size: &[u64],
) -> (r: Result<u64, Error>)
    ensures
        viewed(r) == (HoleRules {
            hole_block_index,
            block_size,
            large_hole_size: large_hole_size@,
        }).len(*chunk),
{
    match hole_block_index {
        Some(hole) => if hole == chunk.block {
            return hole_length(chunk, block_size, large_hole_size);
        },
        None => {},
    }
    Ok(chunk.size as u64)
}

/// Cumulative logical end offset of every chunk within its own file.
///
/// Chunks are grouped by file in `chunks`, with the group boundaries in
/// `chunk_table`, so one pass over the table produces a table that is
/// monotonic within each group and can be binary-searched.
pub fn build_chunk_ends(
    chunks: &[Chunk],
    chunk_table: &[u32],
    hole_block_index: Option<u32>,
    block_size: u32,
    large_hole_size: &[u64],
) -> (r: Result<Vec<u64>, Error>)
    ensures
        viewed(r) == chunk_ends(
            (HoleRules { hole_block_index, block_size, large_hole_size: large_hole_size@ }),
            chunks@,
            chunk_table@,
        ),
{
    let ghost rules = HoleRules { hole_block_index, block_size, large_hole_size: large_hole_size@ };
    let ghost want = chunk_ends(rules, chunks@, chunk_table@);
    let mut ends: Vec<u64> = vec![0u64; chunks.len()];
    assert(ends@ =~= Seq::new(chunks@.len(), |i: int| 0u64));
    let mut k: usize = 0;
    while k < chunk_table.len() && chunk_table.len() - k >= 2
        invariant
            k <= chunk_table.len(),
            ends@.len() == chunks@.len(),
            rules == (HoleRules { hole_block_index, block_size, large_hole_size: large_hole_size@ }),
            want == chunk_ends(rules, chunks@, chunk_table@),
            want == ends_from(rules, chunks@, chunk_table@, k as int, ends@),
        decreases chunk_table.len() - k,
    {
        let start: usize = chunk_table[k] as usize;
        let end: usize = chunk_table[k + 1] as usize;
        if end < start || end > chunks.len() {
            return Err(
                corrupt(
                    Text::of("chunk range [").num(start as u64).str(", ").num(end as u64).str(
                        ") out of ",
                    ).num(chunks.len() as u64).str(" chunks"),
                ),
            );
        }
        let mut cursor: u64 = 0;
        let mut i: usize = start;
        let ghost file = file_ends(rules, chunks@, start as int, end as int, 0, ends@);
        while i < end
            invariant
                start <= i <= end <= chunks.len(),
                ends@.len() == chunks@.len(),
                k + 1 < chunk_table@.len(),
                start == chunk_table@[k as int],
                end == chunk_table@[k + 1],
                rules == (HoleRules {
                    hole_block_index,
                    block_size,
                    large_hole_size: large_hole_size@,
                }),
                want == chunk_ends(rules, chunks@, chunk_table@),
                file == file_ends(rules, chunks@, i as int, end as int, cursor as nat, ends@),
                match file {
                    Err(e) => want == Err::<Seq<u64>, ErrorView>(e),
                    Ok(more) => want == ends_from(rules, chunks@, chunk_table@, k + 1, more),
                },
            decreases end - i,
        {
            let len: u64 = chunk_len(&chunks[i], hole_block_index, block_size, large_hole_size)?;
            cursor = match cursor.checked_add(len) {
                Some(c) => c,
                None => {
                    return Err(corrupt(Text::of("file size overflows u64")));
                },
            };
            ends[i] = cursor;
            i = i + 1;
        }
        k = k + 1;
    }
    Ok(ends)
}

proof fn lemma_file_ends_are_owed(
    rules: HoleRules,
    chunks: Seq<Chunk>,
    start: int,
    i: int,
    end: int,
    ends: Seq<u64>,
)
    requires
        0 <= start <= i <= end <= chunks.len(),
        forall|j: int| start <= j < end ==> rules.len(#[trigger] chunks[j]) is Ok,
        rules.total(chunks, start, end) <= u64::MAX,
    ensures
        file_ends(rules, chunks, i, end, rules.total(chunks, start, i), ends) is Ok,
    decreases end - i,
{
    if i < end {
        lemma_total_step(rules, chunks, start, i);
        lemma_total_split(rules, chunks, start, i + 1, end);
        let cursor = rules.total(chunks, start, i + 1);
        assert(rules.len(chunks[i]) is Ok);
        lemma_file_ends_are_owed(
            rules,
            chunks,
            start,
            i + 1,
            end,
            ends.update(i, cursor as u64),
        );
    }
}

proof fn lemma_ends_are_owed(
    rules: HoleRules,
    chunks: Seq<Chunk>,
    table: Seq<u32>,
    k: int,
    ends: Seq<u64>,
)
    requires
        0 <= k,
        rows_are_sound(rules, chunks, table),
    ensures
        ends_from(rules, chunks, table, k, ends) is Ok,
    decreases table.len() - k,
{
    if k + 1 < table.len() {
        assert(row_is_sound(rules, chunks, table, k));
        lemma_file_ends_are_owed(
            rules,
            chunks,
            table[k] as int,
            table[k] as int,
            table[k + 1] as int,
            ends,
        );
        assert(rules.total(chunks, table[k] as int, table[k] as int) == 0);
        let more = file_ends(rules, chunks, table[k] as int, table[k + 1] as int, 0, ends)->Ok_0;
        lemma_ends_are_owed(rules, chunks, table, k + 1, more);
    }
}

/// Whether row `k` of a chunk table names chunks in order, each with a
/// length, that together are no longer than a file can be.
pub open spec fn row_is_sound(
    rules: HoleRules,
    chunks: Seq<Chunk>,
    table: Seq<u32>,
    k: int,
) -> bool {
    &&& table[k] <= table[k + 1] <= chunks.len()
    &&& forall|j: int| table[k] <= j < table[k + 1] ==> rules.len(#[trigger] chunks[j]) is Ok
    &&& rules.total(chunks, table[k] as int, table[k + 1] as int) <= u64::MAX
}

/// Whether all rows of a chunk table are sound.
pub open spec fn rows_are_sound(rules: HoleRules, chunks: Seq<Chunk>, table: Seq<u32>) -> bool {
    forall|k: int| 0 <= k && k + 1 < table.len() ==> #[trigger] row_is_sound(rules, chunks, table, k)
}

/// A chunk table with sound rows is accepted.
pub proof fn lemma_sound_chunk_tables_are_accepted(
    rules: HoleRules,
    chunks: Seq<Chunk>,
    table: Seq<u32>,
)
    requires
        rows_are_sound(rules, chunks, table),
    ensures
        chunk_ends(rules, chunks, table) is Ok,
{
    lemma_ends_are_owed(rules, chunks, table, 0, Seq::new(chunks.len(), |i: int| 0u64));
}

} // verus!
