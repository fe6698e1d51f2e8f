//! What the files of an image hold, and the laws of reading them.

use crate::error::ErrorView;
use crate::format::image::{ImageView, first_section, section_decoded};
use crate::format::sections::RecordView;
use crate::format::types::SectionType;
use crate::fs::cache::{
    CacheView, lemma_store_evicts_least_recent, position, stored, touched, without,
};
use crate::fs::chunks::{
    HoleRules, chunk_ends, fs_error, lemma_chunk_ends_hold, lemma_ends_at, lemma_total_split,
};
use crate::fs::inode::InodeKind;
use crate::fs::links::unpacked;
use crate::fs::tables::recorded_tables;
use crate::fs::tree::{TreeView, hole_rules, lemma_same_content_id_same_chunks, not_a, tree_of};
use crate::metadata::root::MetadataView;
use crate::metadata::schema::parse_schema;
use crate::text::dec;
use vstd::prelude::*;

verus! {

/// Caps applied to the schema and metadata payloads during open. They
/// bound the read path against hostile compressed inputs.
pub const CAP_SCHEMA_BYTES: usize = 1048576;

pub const CAP_METADATA_BYTES: usize = 67108864;

/// The block sections among the first `n` records, in order.
pub open spec fn block_records(records: Seq<RecordView>, n: nat) -> Seq<RecordView>
    decreases n,
{
    if n == 0 {
        Seq::empty()
    } else {
        let before = block_records(records, (n - 1) as nat);
        if records[n - 1].header.section_type == SectionType::Block {
            before.push(records[n - 1])
        } else {
            before
        }
    }
}

/// The complaint about a section that an image must have.
pub open spec fn missing_section(kind: SectionType) -> ErrorView {
    fs_error("required section type "@ + kind.text() + " missing"@)
}

/// The tree that a schema and a metadata blob describe.
#[verifier::opaque]
pub open spec fn decode_tree(schema: Seq<u8>, metadata: Seq<u8>) -> Result<TreeView, ErrorView> {
    match parse_schema(schema) {
        Err(e) => Err(e),
        Ok(schema) => match MetadataView::parse(schema, metadata) {
            Err(e) => Err(e),
            Ok(m) => match recorded_tables(m) {
                Err(e) => Err(e),
                Ok(tables) => tree_of(unpacked(tables)),
            },
        },
    }
}

/// What opening the filesystem of an image answers.
#[verifier::opaque]
pub open spec fn open_tree(image: ImageView) -> Result<TreeView, ErrorView> {
    match first_section(image.sections, SectionType::MetadataV2Schema) {
        None => Err(missing_section(SectionType::MetadataV2Schema)),
        Some(schema) => match first_section(image.sections, SectionType::MetadataV2) {
            None => Err(missing_section(SectionType::MetadataV2)),
            Some(metadata) => match section_decoded(
                image.bytes,
                schema,
                CAP_SCHEMA_BYTES as nat,
            ) {
                Err(e) => Err(e),
                Ok(schema) => match section_decoded(
                    image.bytes,
                    metadata,
                    CAP_METADATA_BYTES as nat,
                ) {
                    Err(e) => Err(e),
                    Ok(metadata) => decode_tree(schema, metadata),
                },
            },
        },
    }
}

/// An opened filesystem: its image and its tree.
#[verifier::ext_equal]
pub struct FsView {
    pub image: ImageView,
    pub tree: TreeView,
}

/// The end of a read of `len` bytes at `offset`.
pub open spec fn read_end(offset: u64, len: nat) -> nat {
    if offset + len > u64::MAX {
        u64::MAX as nat
    } else {
        offset as nat + len
    }
}

impl FsView {
    /// The tree is the image's.
    pub open spec fn consistent(self) -> bool {
        self.tree.consistent() && open_tree(self.image) == Ok::<TreeView, ErrorView>(self.tree)
    }

    /// The decoded contents of a block.
    #[verifier::opaque]
    pub open spec fn block_bytes(self, block: u32) -> Result<Seq<u8>, ErrorView> {
        let records = block_records(self.image.sections, self.image.sections.len());
        if block < records.len() {
            section_decoded(
                self.image.bytes,
                records[block as int],
                self.tree.tables.block_size as nat,
            )
        } else {
            Err(fs_error("block "@ + dec(block as nat) + " out of range"@))
        }
    }

    pub open spec fn rules(self) -> HoleRules {
        hole_rules(self.tree.tables)
    }

    /// Where a chunk ends in its file.
    pub open spec fn chunk_stop(self, i: int) -> int {
        self.tree.chunk_end[i] as int
    }

    /// Where a chunk starts in its file.
    pub open spec fn chunk_start(self, i: int) -> int {
        self.chunk_stop(i) - self.rules().len(self.tree.tables.chunks[i])->Ok_0
    }

    /// Bytes `lo..hi` of a chunk. A hole holds zero bytes.
    #[verifier::opaque]
    pub open spec fn chunk_bytes(self, i: int, lo: int, hi: int) -> Result<Seq<u8>, ErrorView> {
        let chunk = self.tree.tables.chunks[i];
        if self.rules().is_hole(chunk) {
            Ok(Seq::new((hi - lo) as nat, |k: int| 0u8))
        } else {
            match self.block_bytes(chunk.block) {
                Err(e) => Err(e),
                Ok(block) => if chunk.offset + hi > block.len() {
                    Err(
                        fs_error(
                            "chunk "@ + dec((chunk.offset + lo) as nat) + ".."@ + dec(
                                (chunk.offset + hi) as nat,
                            ) + " exceeds block of "@ + dec(block.len()) + " bytes"@,
                        ),
                    )
                } else {
                    Ok(block.subrange(chunk.offset + lo, chunk.offset + hi))
                },
            }
        }
    }

    /// The bytes that chunks `i..end` of one file hold between the file
    /// offsets `from` and `to`.
    #[verifier::opaque]
    pub open spec fn read_chunks(self, i: int, end: int, from: int, to: int) -> Result<
        Seq<u8>,
        ErrorView,
    >
        decreases end - i,
    {
        if i >= end || from >= to || self.chunk_start(i) >= to {
            Ok(Seq::empty())
        } else if self.chunk_stop(i) <= from {
            self.read_chunks(i + 1, end, from, to)
        } else {
            let start = self.chunk_start(i);
            let lo = if from > start {
                from
            } else {
                start
            };
            let hi = if to < self.chunk_stop(i) {
                to
            } else {
                self.chunk_stop(i)
            };
            match self.chunk_bytes(i, lo - start, hi - start) {
                Err(e) => Err(e),
                Ok(piece) => match self.read_chunks(i + 1, end, from, to) {
                    Err(e) => Err(e),
                    Ok(rest) => Ok(piece + rest),
                },
            }
        }
    }

    /// The bytes of a file from `offset` on, `len` of them or as many as
    /// the file has.
    pub open spec fn read(self, inode: u32, offset: u64, len: nat) -> Result<Seq<u8>, ErrorView> {
        match self.tree.kind(inode) {
            Err(e) => Err(e),
            Ok(kind) => if kind != InodeKind::Regular {
                Err(not_a(inode, "regular file"@))
            } else {
                match self.tree.chunk_range(inode) {
                    Err(e) => Err(e),
                    Ok((start, end)) => self.read_chunks(
                        start as int,
                        end as int,
                        offset as int,
                        read_end(offset, len) as int,
                    ),
                }
            },
        }
    }

    /// The bytes that a bounded read asks for: no more than the file has
    /// left.
    pub open spec fn available(size: u64, offset: u64, wanted: u64) -> u64 {
        let left = if size > offset {
            (size - offset) as u64
        } else {
            0
        };
        if left < wanted {
            left
        } else {
            wanted
        }
    }

    /// What a read of at most `size` bytes at `offset` answers.
    pub open spec fn read_at(self, inode: u32, offset: u64, size: u64) -> Result<
        Seq<u8>,
        ErrorView,
    > {
        match self.tree.file_size(inode) {
            Err(e) => Err(e),
            Ok(total) => {
                let n = Self::available(total, offset, size);
                if n > usize::MAX {
                    Err(
                        fs_error("read of "@ + dec(n as nat) + " bytes exceeds this platform"@),
                    )
                } else {
                    self.read(inode, offset, n as nat)
                }
            },
        }
    }

    /// The whole contents of a file.
    pub open spec fn read_file(self, inode: u32) -> Result<Seq<u8>, ErrorView> {
        match self.tree.file_size(inode) {
            Err(e) => Err(e),
            Ok(size) => self.read_at(inode, 0, size),
        }
    }

    /// The first of chunks `i..end` that ends after `offset`.
    pub open spec fn covering(self, i: int, end: int, offset: int) -> int
        decreases end - i,
    {
        if i >= end || self.chunk_stop(i) > offset {
            i
        } else {
            self.covering(i + 1, end, offset)
        }
    }

    /// The bytes that a range of a file has in one chunk of one block,
    /// where it lies in one. An empty range has none and needs no chunk.
    pub open spec fn borrow(self, inode: u32, offset: u64, len: nat) -> Result<
        Option<Seq<u8>>,
        ErrorView,
    > {
        match self.tree.kind(inode) {
            Err(e) => Err(e),
            Ok(kind) => if kind != InodeKind::Regular {
                Err(not_a(inode, "regular file"@))
            } else if len == 0 {
                Ok(Some(Seq::empty()))
            } else {
                match self.tree.chunk_range(inode) {
                    Err(e) => Err(e),
                    Ok((start, end)) => {
                        let i = self.covering(start as int, end as int, offset as int);
                        if i >= end || self.rules().is_hole(self.tree.tables.chunks[i]) || offset
                            + len > self.chunk_stop(i) {
                            Ok(None)
                        } else {
                            match self.chunk_bytes(
                                i,
                                offset - self.chunk_start(i),
                                offset + len - self.chunk_start(i),
                            ) {
                                Err(e) => Err(e),
                                Ok(bytes) => Ok(Some(bytes)),
                            }
                        }
                    },
                }
            },
        }
    }

    /// The blocks of the chunks among `i..end` that a read between `from`
    /// and `to` takes bytes from.
    pub open spec fn blocks_read(self, i: int, end: int, from: int, to: int) -> Seq<u32>
        decreases end - i,
    {
        if i >= end || from >= to || self.chunk_start(i) >= to {
            Seq::empty()
        } else {
            let rest = self.blocks_read(i + 1, end, from, to);
            let chunk = self.tree.tables.chunks[i];
            if self.chunk_stop(i) <= from || self.rules().is_hole(chunk) {
                rest
            } else {
                seq![chunk.block] + rest
            }
        }
    }
}

/// Whether every cached block holds what the filesystem's block does.
pub open spec fn agrees(c: CacheView, v: FsView) -> bool {
    forall|i: int|
        0 <= i < c.blocks.len() ==> v.block_bytes((#[trigger] c.blocks[i]).0) == Ok::<
            Seq<u8>,
            ErrorView,
        >(c.blocks[i].1)
}

/// An empty cache agrees with every filesystem.
pub proof fn lemma_empty_agrees(c: CacheView, v: FsView)
    requires
        c.blocks.len() == 0,
    ensures
        agrees(c, v),
{
}

/// Using a block changes no block.
pub proof fn lemma_touch_agrees(c: CacheView, v: FsView, block: u32)
    requires
        agrees(c, v),
    ensures
        agrees(c.touch(block), v),
{
    let after = touched(c.blocks, block);
    crate::fs::cache::lemma_position(c.blocks, block, 0);
    if let Some(p) = position(c.blocks, block) {
        assert forall|i: int| 0 <= i < after.len() implies v.block_bytes((#[trigger] after[i]).0)
            == Ok::<Seq<u8>, ErrorView>(after[i].1) by {
            let k = if i == after.len() - 1 {
                p as int
            } else if i < p {
                i
            } else {
                i + 1
            };
            assert(after[i] == c.blocks[k]);
        }
    }
}

/// Adding what a block holds keeps a cache in agreement.
pub proof fn lemma_store_agrees(c: CacheView, v: FsView, block: u32, bytes: Seq<u8>)
    requires
        agrees(c, v),
        v.block_bytes(block) == Ok::<Seq<u8>, ErrorView>(bytes),
    ensures
        agrees(c.store(block, bytes), v),
{
    let base = without(c.blocks, block);
    crate::fs::cache::lemma_position(c.blocks, block, 0);
    assert forall|i: int| 0 <= i < base.len() implies v.block_bytes((#[trigger] base[i]).0) == Ok::<
        Seq<u8>,
        ErrorView,
    >(base[i].1) by {
        if let Some(p) = position(c.blocks, block) {
            let k = if i < p {
                i
            } else {
                i + 1
            };
            assert(base[i] == c.blocks[k]);
        }
    }
    lemma_store_evicts_least_recent(c.blocks, block, bytes, c.budget);
    let after = stored(c.blocks, block, bytes, c.budget);
    let k = choose|k: int|
        #![trigger without(c.blocks, block).skip(k)]
        0 <= k <= without(c.blocks, block).len() && after == without(c.blocks, block).skip(
            k,
        ).push((block, bytes));
    assert forall|i: int| 0 <= i < after.len() implies v.block_bytes((#[trigger] after[i]).0)
        == Ok::<Seq<u8>, ErrorView>(after[i].1) by {
        if i < after.len() - 1 {
            assert(after[i] == base[k + i]);
        }
    }
}

/// What is known of the chunks `start..end` of one file: each has a
/// length, the first starts at zero, and each next one starts where the
/// one before stops.
#[verifier::opaque]
pub open spec fn file_chunks(v: FsView, start: int, end: int) -> bool {
    &&& 0 <= start <= end <= v.tree.tables.chunks.len() == v.tree.chunk_end.len()
    &&& forall|i: int|
        start <= i < end ==> v.rules().len(#[trigger] v.tree.tables.chunks[i]) is Ok
            && v.chunk_start(i) == v.rules().total(v.tree.tables.chunks, start, i)
            && v.chunk_stop(i) == v.rules().total(v.tree.tables.chunks, start, i + 1)
}

/// The chunks of a slot of the chunk table.
proof fn lemma_slot_chunks(v: FsView, slot: int)
    requires
        v.tree.consistent(),
        0 <= slot,
        slot + 1 < v.tree.tables.chunk_table.len(),
    ensures
        ({
            let t = v.tree.tables;
            let start = t.chunk_table[slot];
            let end = t.chunk_table[slot + 1];
            &&& v.tree.chunk_end.len() == t.chunks.len()
            &&& start <= end <= t.chunks.len()
            &&& forall|i: int|
                start <= i < end ==> v.rules().len(#[trigger] t.chunks[i]) is Ok
                    && v.tree.chunk_end[i] == v.rules().total(t.chunks, start as int, i + 1)
        }),
{
    let t = v.tree.tables;
    assert(chunk_ends(v.rules(), t.chunks, t.chunk_table) == Ok::<Seq<u64>, ErrorView>(
        v.tree.chunk_end,
    )) by {
        reveal(tree_of);
    }
    lemma_chunk_ends_hold(v.rules(), t.chunks, t.chunk_table);
    lemma_ends_at(v.rules(), t.chunks, t.chunk_table, v.tree.chunk_end, slot);
}

/// The chunks of a file lie one after the other from offset zero on, and
/// the last one stops at the file's size.
pub proof fn lemma_file_chunks(v: FsView, inode: u32)
    requires
        v.tree.consistent(),
        v.tree.chunk_range(inode) is Ok,
    ensures
        ({
            let (start, end) = v.tree.chunk_range(inode)->Ok_0;
            &&& file_chunks(v, start as int, end as int)
            &&& v.tree.kind(inode) == Ok::<InodeKind, ErrorView>(InodeKind::Regular)
                ==> v.tree.file_size(inode) == Ok::<u64, ErrorView>(
                v.rules().total(v.tree.tables.chunks, start as int, end as int) as u64,
            )
            &&& v.rules().total(v.tree.tables.chunks, start as int, end as int) <= u64::MAX
            &&& start <= end <= v.tree.tables.chunks.len() == v.tree.chunk_end.len()
        }),
{
    let t = v.tree.tables;
    let (start, end) = v.tree.chunk_range(inode)->Ok_0;
    lemma_slot_chunks(v, v.tree.slot(inode)->Ok_0 as int);
    assert(file_chunks(v, start as int, end as int)) by {
        reveal(file_chunks);
        assert forall|i: int| start <= i < end implies v.rules().len(#[trigger] t.chunks[i]) is Ok
            && v.chunk_start(i) == v.rules().total(t.chunks, start as int, i) && v.chunk_stop(i)
            == v.rules().total(t.chunks, start as int, i + 1) by {
            assert(v.rules().len(t.chunks[i]) is Ok);
        }
    }
    if start < end {
        assert(v.rules().len(t.chunks[end - 1]) is Ok);
    }
}

/// Where a chunk of a file lies.
pub proof fn lemma_chunk_at(v: FsView, start: int, i: int, end: int)
    requires
        file_chunks(v, start, end),
        start <= i < end,
    ensures
        ({
            let chunks = v.tree.tables.chunks;
            &&& v.rules().len(chunks[i]) is Ok
            &&& v.chunk_start(i) == v.rules().total(chunks, start, i)
            &&& v.chunk_stop(i) == v.rules().total(chunks, start, i + 1)
            &&& 0 <= start <= end <= chunks.len() == v.tree.chunk_end.len()
            &&& v.chunk_start(i) <= v.chunk_stop(i) <= v.rules().total(chunks, start, end)
        }),
{
    reveal(file_chunks);
    assert(v.rules().len(v.tree.tables.chunks[i]) is Ok);
    lemma_total_split(v.rules(), v.tree.tables.chunks, start, i + 1, end);
}

/// The first chunk that ends after an offset: those before it end at or
/// before the offset, and from it on all end after.
pub proof fn lemma_covering(v: FsView, start: int, i: int, end: int, offset: int)
    requires
        file_chunks(v, start, end),
        start <= i <= end,
    ensures
        i <= v.covering(i, end, offset) <= end,
        forall|j: int|
            i <= j < v.covering(i, end, offset) ==> #[trigger] v.chunk_stop(j) <= offset,
        forall|j: int|
            v.covering(i, end, offset) <= j < end ==> #[trigger] v.chunk_stop(j) > offset,
    decreases end - i,
{
    if i < end {
        if v.chunk_stop(i) > offset {
            assert forall|j: int| i <= j < end implies #[trigger] v.chunk_stop(j) > offset by {
                lemma_stops_ordered(v, start, end, i, j);
            }
        } else {
            lemma_covering(v, start, i + 1, end, offset);
        }
    }
}

/// Chunks of a file stop in order.
pub proof fn lemma_stops_ordered(v: FsView, start: int, end: int, i: int, j: int)
    requires
        file_chunks(v, start, end),
        start <= i <= j < end,
    ensures
        v.chunk_stop(i) <= v.chunk_stop(j),
{
    lemma_chunk_at(v, start, i, end);
    lemma_chunk_at(v, start, j, end);
    lemma_total_split(v.rules(), v.tree.tables.chunks, start, i + 1, j + 1);
}

/// A read may start at the first chunk that ends after its offset.
pub proof fn lemma_skip_to_covering(v: FsView, start: int, i: int, end: int, from: int, to: int)
    requires
        file_chunks(v, start, end),
        start <= i <= end,
        0 <= from,
    ensures
        v.read_chunks(i, end, from, to) == v.read_chunks(
            v.covering(i, end, from),
            end,
            from,
            to,
        ),
        v.blocks_read(i, end, from, to) == v.blocks_read(
            v.covering(i, end, from),
            end,
            from,
            to,
        ),
    decreases end - i,
{
    reveal_with_fuel(FsView::read_chunks, 1);
    if i < end && v.chunk_stop(i) <= from {
        lemma_skip_to_covering(v, start, i + 1, end, from, to);
        lemma_chunk_at(v, start, i, end);
        if from >= to {
            assert(v.read_chunks(i + 1, end, from, to) == Ok::<Seq<u8>, ErrorView>(Seq::empty()));
        } else {
            assert(v.chunk_start(i) < to);
        }
    }
}

/// The bytes of `piece` and of `rest` after it.
pub open spec fn joined(piece: Result<Seq<u8>, ErrorView>, rest: Result<Seq<u8>, ErrorView>) ->
    Result<Seq<u8>, ErrorView> {
    match piece {
        Err(e) => Err(e),
        Ok(piece) => match rest {
            Err(e) => Err(e),
            Ok(rest) => Ok(piece + rest),
        },
    }
}

/// Joining is associative.
pub proof fn lemma_joined(done: Seq<u8>, piece: Seq<u8>, rest: Result<Seq<u8>, ErrorView>)
    ensures
        joined(Ok(done), joined(Ok(piece), rest)) == joined(Ok(done + piece), rest),
        joined(Ok(Seq::empty()), rest) == rest,
        joined(Ok(done), Ok(Seq::empty())) == Ok::<Seq<u8>, ErrorView>(done),
{
    if let Ok(rest) = rest {
        assert(done + (piece + rest) =~= done + piece + rest);
        assert(Seq::<u8>::empty() + rest =~= rest);
    }
    assert(done + Seq::<u8>::empty() =~= done);
}

/// One chunk of a read.
pub proof fn lemma_read_step(v: FsView, i: int, end: int, from: int, to: int)
    ensures
        i >= end || from >= to || v.chunk_start(i) >= to ==> v.read_chunks(i, end, from, to)
            == Ok::<Seq<u8>, ErrorView>(Seq::empty()),
        i < end && from < to && v.chunk_start(i) < to && v.chunk_stop(i) <= from ==> v.read_chunks(
            i,
            end,
            from,
            to,
        ) == v.read_chunks(i + 1, end, from, to),
        i < end && from < to && v.chunk_start(i) < to && v.chunk_stop(i) > from ==> v.read_chunks(
            i,
            end,
            from,
            to,
        ) == joined(
            v.chunk_bytes(
                i,
                (if from > v.chunk_start(i) {
                    from
                } else {
                    v.chunk_start(i)
                }) - v.chunk_start(i),
                (if to < v.chunk_stop(i) {
                    to
                } else {
                    v.chunk_stop(i)
                }) - v.chunk_start(i),
            ),
            v.read_chunks(i + 1, end, from, to),
        ),
{
    reveal_with_fuel(FsView::read_chunks, 1);
}

/// The offset `at`, kept between `low` and `high`.
pub open spec fn clamp(at: int, low: int, high: int) -> int {
    if at < low {
        low
    } else if at > high {
        high
    } else {
        at
    }
}

/// A part of a chunk's bytes is that part of the bytes.
proof fn lemma_chunk_part(v: FsView, i: int, lo: int, hi: int, a: int, b: int)
    requires
        0 <= lo <= a <= b <= hi,
        v.chunk_bytes(i, lo, hi) is Ok,
    ensures
        v.chunk_bytes(i, lo, hi)->Ok_0.len() == hi - lo,
        v.chunk_bytes(i, a, b) == Ok::<Seq<u8>, ErrorView>(
            v.chunk_bytes(i, lo, hi)->Ok_0.subrange(a - lo, b - lo),
        ),
{
    reveal(FsView::chunk_bytes);
    let whole = v.chunk_bytes(i, lo, hi)->Ok_0;
    let part = v.chunk_bytes(i, a, b)->Ok_0;
    assert(part =~= whole.subrange(a - lo, b - lo));
}

/// Cutting a part out of a piece `piece` of a read and the `rest` after it.
/// The piece has the bytes between `here` and `stop`, the rest those
/// between `stop` and `last`.
proof fn lemma_join_part(
    piece: Seq<u8>,
    rest: Seq<u8>,
    here: int,
    stop: int,
    last: int,
    from: int,
    to: int,
    a: int,
    b: int,
)
    requires
        0 <= from <= a <= b <= to,
        0 <= here <= stop <= last,
        from < stop,
        from < to,
        here < to,
        piece.len() == clamp(to, here, stop) - clamp(from, here, stop),
        rest.len() == clamp(to, stop, last) - stop,
    ensures
        ({
            let low = clamp(from, here, last);
            let x = clamp(a, low, last) - low;
            let y = clamp(b, low, last) - low;
            let tail = rest.subrange(clamp(a, stop, last) - stop, clamp(b, stop, last) - stop);
            let cut = clamp(from, here, stop);
            &&& (piece + rest).len() == clamp(to, low, last) - low
            &&& a >= b || here >= b ==> (piece + rest).subrange(x, y) == Seq::<u8>::empty()
            &&& stop <= a ==> (piece + rest).subrange(x, y) == tail
            &&& a < stop && here < b ==> (piece + rest).subrange(x, y) == piece.subrange(
                clamp(a, here, stop) - cut,
                clamp(b, here, stop) - cut,
            ) + tail
        }),
{
    let low = clamp(from, here, last);
    let x = clamp(a, low, last) - low;
    let y = clamp(b, low, last) - low;
    let tail = rest.subrange(clamp(a, stop, last) - stop, clamp(b, stop, last) - stop);
    let cut = clamp(from, here, stop);
    let whole = (piece + rest).subrange(x, y);
    if a >= b || here >= b {
        assert(whole =~= Seq::<u8>::empty());
    }
    if stop <= a {
        assert(whole =~= tail);
    }
    if a < stop && here < b {
        assert(whole =~= piece.subrange(
            clamp(a, here, stop) - cut,
            clamp(b, here, stop) - cut,
        ) + tail);
    }
}

/// The number of bytes a read has, and that each part of its range reads
/// the matching part of its bytes.
proof fn lemma_read_part(
    v: FsView,
    start: int,
    i: int,
    end: int,
    from: int,
    to: int,
    a: int,
    b: int,
)
    requires
        file_chunks(v, start, end),
        start <= i <= end,
        0 <= from <= a <= b <= to,
        v.read_chunks(i, end, from, to) is Ok,
    ensures
        ({
            let chunks = v.tree.tables.chunks;
            let here = v.rules().total(chunks, start, i) as int;
            let last = v.rules().total(chunks, start, end) as int;
            let bytes = v.read_chunks(i, end, from, to)->Ok_0;
            let low = clamp(from, here, last);
            &&& bytes.len() == clamp(to, low, last) - low
            &&& v.read_chunks(i, end, a, b) == Ok::<Seq<u8>, ErrorView>(
                bytes.subrange(clamp(a, low, last) - low, clamp(b, low, last) - low),
            )
        }),
    decreases end - i,
{
    reveal_with_fuel(FsView::read_chunks, 1);
    let chunks = v.tree.tables.chunks;
    let here = v.rules().total(chunks, start, i) as int;
    let last = v.rules().total(chunks, start, end) as int;
    let bytes = v.read_chunks(i, end, from, to)->Ok_0;
    let low = clamp(from, here, last);
    let x = clamp(a, low, last) - low;
    let y = clamp(b, low, last) - low;
    lemma_total_split(v.rules(), chunks, start, i, end);
    if i >= end {
        assert(bytes.subrange(x, y) =~= Seq::<u8>::empty());
    } else {
        lemma_chunk_at(v, start, i, end);
        let stop = v.chunk_stop(i);
        if from >= to || here >= to {
            assert(bytes.subrange(x, y) =~= Seq::<u8>::empty());
        } else {
            lemma_read_part(v, start, i + 1, end, from, to, a, b);
            if stop <= from {
                if a >= b || here >= b {
                    assert(bytes.subrange(x, y) =~= Seq::<u8>::empty());
                }
            } else {
                let lo = clamp(from, here, stop);
                let hi = clamp(to, here, stop);
                let piece = v.chunk_bytes(i, lo - here, hi - here)->Ok_0;
                let rest = v.read_chunks(i + 1, end, from, to)->Ok_0;
                assert(bytes == piece + rest);
                lemma_chunk_part(v, i, lo - here, hi - here, lo - here, hi - here);
                lemma_join_part(piece, rest, here, stop, last, from, to, a, b);
                if a < b && here < b && a < stop {
                    lemma_chunk_part(
                        v,
                        i,
                        lo - here,
                        hi - here,
                        clamp(a, here, stop) - here,
                        clamp(b, here, stop) - here,
                    );
                }
            }
        }
    }
}

/// A read that succeeds has as many bytes as it asked for or the file has
/// left, none past the end of the file, and every part of its range reads
/// the matching part of its bytes: the size of the reads that fetch a file
/// does not change the bytes.
pub proof fn lemma_parts_of_a_read(
    v: FsView,
    inode: u32,
    offset: u64,
    len: nat,
    at: u64,
    part: nat,
)
    requires
        v.tree.consistent(),
        v.read(inode, offset, len) is Ok,
        offset <= at,
        at + part <= offset + len,
        offset + len <= u64::MAX,
    ensures
        ({
            let bytes = v.read(inode, offset, len)->Ok_0;
            let size = v.tree.file_size(inode)->Ok_0 as int;
            let low = clamp(offset as int, 0, size);
            &&& v.tree.file_size(inode) is Ok
            &&& bytes.len() == clamp(offset + len, low, size) - low
            &&& v.read(inode, at, part) == Ok::<Seq<u8>, ErrorView>(
                bytes.subrange(
                    clamp(at as int, low, size) - low,
                    clamp(at + part, low, size) - low,
                ),
            )
        }),
{
    lemma_file_chunks(v, inode);
    let (start, end) = v.tree.chunk_range(inode)->Ok_0;
    lemma_read_part(
        v,
        start as int,
        start as int,
        end as int,
        offset as int,
        offset + len,
        at as int,
        at + part,
    );
}

/// Reading a range in two steps gives the bytes of one read over it.
pub proof fn lemma_read_in_two_steps(v: FsView, inode: u32, offset: u64, first: nat, second: nat)
    requires
        v.tree.consistent(),
        v.read(inode, offset, first + second) is Ok,
        offset + first + second <= u64::MAX,
    ensures
        v.read(inode, offset, first) is Ok,
        v.read(inode, (offset + first) as u64, second) is Ok,
        v.read(inode, offset, first + second)->Ok_0 == v.read(inode, offset, first)->Ok_0 + v.read(
            inode,
            (offset + first) as u64,
            second,
        )->Ok_0,
{
    lemma_parts_of_a_read(v, inode, offset, first + second, offset, first);
    lemma_parts_of_a_read(v, inode, offset, first + second, (offset + first) as u64, second);
    let bytes = v.read(inode, offset, first + second)->Ok_0;
    assert(bytes =~= v.read(inode, offset, first)->Ok_0 + v.read(
        inode,
        (offset + first) as u64,
        second,
    )->Ok_0);
}

/// A read at or past the end of a file is empty.
pub proof fn lemma_read_past_the_end(v: FsView, inode: u32, offset: u64, len: nat)
    requires
        v.tree.consistent(),
        v.tree.kind(inode) == Ok::<InodeKind, ErrorView>(InodeKind::Regular),
        v.tree.file_size(inode) is Ok,
        offset >= v.tree.file_size(inode)->Ok_0,
    ensures
        v.read(inode, offset, len) == Ok::<Seq<u8>, ErrorView>(Seq::empty()),
{
    reveal_with_fuel(FsView::read_chunks, 1);
    lemma_file_chunks(v, inode);
    let (start, end) = v.tree.chunk_range(inode)->Ok_0;
    lemma_covering(v, start as int, start as int, end as int, offset as int);
    lemma_skip_to_covering(
        v,
        start as int,
        start as int,
        end as int,
        offset as int,
        read_end(offset, len) as int,
    );
    let c = v.covering(start as int, end as int, offset as int);
    if c < end {
        assert(v.chunk_stop(c) > offset);
        lemma_chunk_at(v, start as int, c, end as int);
    }
}

/// The whole contents of a file are as many bytes as its size, and every
/// read inside the file is a part of them.
pub proof fn lemma_file_contents(v: FsView, inode: u32, offset: u64, len: nat)
    requires
        v.tree.consistent(),
        v.tree.kind(inode) == Ok::<InodeKind, ErrorView>(InodeKind::Regular),
        v.read_file(inode) is Ok,
        offset + len <= v.tree.file_size(inode)->Ok_0,
    ensures
        v.read_file(inode)->Ok_0.len() == v.tree.file_size(inode)->Ok_0,
        v.read(inode, offset, len) == Ok::<Seq<u8>, ErrorView>(
            v.read_file(inode)->Ok_0.subrange(offset as int, offset + len),
        ),
{
    let size = v.tree.file_size(inode)->Ok_0;
    assert(FsView::available(size, 0, size) == size);
    lemma_parts_of_a_read(v, inode, 0, size as nat, offset, len);
}

/// A range inside one chunk reads that part of the chunk.
proof fn lemma_read_one_chunk(v: FsView, start: int, end: int, from: int, to: int)
    requires
        file_chunks(v, start, end),
        0 <= from < to,
        v.covering(start, end, from) < end,
        to <= v.chunk_stop(v.covering(start, end, from)),
    ensures
        ({
            let i = v.covering(start, end, from);
            let here = v.chunk_start(i);
            v.chunk_bytes(i, from - here, to - here) is Ok ==> v.read_chunks(start, end, from, to)
                == v.chunk_bytes(i, from - here, to - here)
        }),
{
    reveal_with_fuel(FsView::read_chunks, 1);
    lemma_covering(v, start, start, end, from);
    lemma_skip_to_covering(v, start, start, end, from, to);
    lemma_covering_start(v, start, end, from);
    let i = v.covering(start, end, from);
    lemma_chunk_at(v, start, i, end);
    if i + 1 < end {
        lemma_chunk_at(v, start, i + 1, end);
    }
    assert(v.read_chunks(i + 1, end, from, to) == Ok::<Seq<u8>, ErrorView>(Seq::empty()));
    let here = v.chunk_start(i);
    if let Ok(bytes) = v.chunk_bytes(i, from - here, to - here) {
        assert(bytes + Seq::<u8>::empty() =~= bytes);
    }
}

/// A borrowed range holds the bytes that a read of it gives.
pub proof fn lemma_borrow_is_read(v: FsView, inode: u32, offset: u64, len: nat)
    requires
        v.tree.consistent(),
        v.borrow(inode, offset, len) matches Ok(Some(_)),
        len == 0 ==> v.tree.chunk_range(inode) is Ok,
    ensures
        v.read(inode, offset, len) == Ok::<Seq<u8>, ErrorView>(
            v.borrow(inode, offset, len)->Ok_0->Some_0,
        ),
{
    reveal_with_fuel(FsView::read_chunks, 1);
    lemma_file_chunks(v, inode);
    let (start, end) = v.tree.chunk_range(inode)->Ok_0;
    if len > 0 {
        lemma_read_one_chunk(v, start as int, end as int, offset as int, offset + len);
    }
}

/// A range that lies in one chunk of a block is borrowed: the bytes of the
/// block from the chunk's offset on. One in a hole, or past the chunk that
/// its first byte is in, is not.
pub proof fn lemma_ranges_in_one_chunk_are_borrowed(
    v: FsView,
    inode: u32,
    i: int,
    offset: u64,
    len: nat,
)
    requires
        v.tree.consistent(),
        v.tree.kind(inode) == Ok::<InodeKind, ErrorView>(InodeKind::Regular),
        v.tree.chunk_range(inode) is Ok,
        v.tree.chunk_range(inode)->Ok_0.0 <= i < v.tree.chunk_range(inode)->Ok_0.1,
        v.chunk_start(i) <= offset < v.chunk_stop(i),
        len > 0,
    ensures
        ({
            let chunk = v.tree.tables.chunks[i];
            let at = chunk.offset + offset - v.chunk_start(i);
            &&& !v.rules().is_hole(chunk) && offset + len <= v.chunk_stop(i) ==> match v.block_bytes(
                chunk.block,
            ) {
                Ok(block) => at + len <= block.len() ==> v.borrow(inode, offset, len) == Ok::<
                    Option<Seq<u8>>,
                    ErrorView,
                >(Some(block.subrange(at, (at + len) as int))),
                Err(e) => v.borrow(inode, offset, len) == Err::<Option<Seq<u8>>, ErrorView>(e),
            }
            &&& v.rules().is_hole(chunk) || offset + len > v.chunk_stop(i) ==> v.borrow(
                inode,
                offset,
                len,
            ) == Ok::<Option<Seq<u8>>, ErrorView>(None)
        }),
{
    reveal(FsView::chunk_bytes);
    lemma_file_chunks(v, inode);
    let (start, end) = v.tree.chunk_range(inode)->Ok_0;
    lemma_covering(v, start as int, start as int, end as int, offset as int);
    let k = v.covering(start as int, end as int, offset as int);
    if k > i {
        assert(v.chunk_stop(i) <= offset);
    }
    if k < i {
        lemma_chunk_at(v, start as int, i, end as int);
        lemma_chunk_at(v, start as int, i - 1, end as int);
        lemma_stops_ordered(v, start as int, end as int, k, i - 1);
        assert(v.chunk_stop(k) > offset);
    }
}

/// The chunk that covers an offset starts at or before it.
pub proof fn lemma_covering_start(v: FsView, start: int, end: int, offset: int)
    requires
        file_chunks(v, start, end),
        0 <= offset,
        v.covering(start, end, offset) < end,
    ensures
        v.chunk_start(v.covering(start, end, offset)) <= offset,
{
    lemma_covering(v, start, start, end, offset);
    let i = v.covering(start, end, offset);
    lemma_chunk_at(v, start, i, end);
    if i > start {
        assert(v.chunk_stop(i - 1) <= offset);
        lemma_chunk_at(v, start, i - 1, end);
    }
}

/// Files with the same content id have the same size and the same
/// contents.
pub proof fn lemma_same_content_id(v: FsView, a: u32, b: u32, offset: u64, len: nat)
    requires
        v.tree.consistent(),
        v.tree.content_id(a) is Ok,
        v.tree.content_id(a) == v.tree.content_id(b),
        v.tree.kind(a) == Ok::<InodeKind, ErrorView>(InodeKind::Regular),
        v.tree.kind(b) == Ok::<InodeKind, ErrorView>(InodeKind::Regular),
    ensures
        v.tree.file_size(a) == v.tree.file_size(b),
        v.read(a, offset, len) == v.read(b, offset, len),
        v.read_file(a) == v.read_file(b),
{
    lemma_same_content_id_same_chunks(v.tree, a, b);
}

/// Every byte of a hole reads as zero.
pub proof fn lemma_holes_are_zero(v: FsView, i: int, lo: int, hi: int)
    requires
        v.rules().is_hole(v.tree.tables.chunks[i]),
        lo <= hi,
    ensures
        v.chunk_bytes(i, lo, hi) is Ok,
        v.chunk_bytes(i, lo, hi)->Ok_0.len() == hi - lo,
        forall|k: int| 0 <= k < hi - lo ==> #[trigger] v.chunk_bytes(i, lo, hi)->Ok_0[k] == 0,
{
    reveal(FsView::chunk_bytes);
}

} // verus!
