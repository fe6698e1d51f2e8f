//! Read-side filesystem: one handle over an image and its tree.

use std::sync::Arc;

use crate::error::{Error, ErrorView, answers, viewed};
use crate::format::image::Image;
use crate::format::sections::{RecordView, SectionRecord, record_views};
use crate::format::source::ImageSource;
use crate::format::types::SectionType;
use crate::fs::cache::{BlockCache, lemma_position, within_budget};
use crate::fs::chunks::{chunk_len, corrupt};
use crate::fs::content::{
    CAP_METADATA_BYTES, CAP_SCHEMA_BYTES, FsView, agrees, block_records, decode_tree, file_chunks,
    joined, lemma_joined, lemma_read_step,
    lemma_chunk_at, lemma_covering, lemma_covering_start, lemma_empty_agrees, lemma_file_chunks,
    lemma_skip_to_covering, lemma_store_agrees, lemma_touch_agrees, missing_section, open_tree,
    read_end,
};
use crate::fs::inode::InodeKind;
use crate::fs::offsets::{InodeOffsets, lemma_offsets_ordered};
use crate::fs::residency::{
    fetch_one, fetched, lemma_blocks_step, lemma_fetched_is_last, lemma_fetched_push,
    lemma_piece_went, lemma_went_nowhere, lemma_went_so_far, lemma_went_within, went_through,
};
use crate::fs::tables::Tables;
use crate::fs::tree::{
    Listing, ListingView, Node, Stat, Tree, TreeView, distinct_from, listings, not_a, tree_of,
};
use crate::metadata::model::{Chunk, FsOptions};
use crate::metadata::root::{Metadata, texts};
use crate::metadata::schema::Schema;
use crate::text::Text;
use vstd::prelude::*;

verus! {

/// Filesystem view over a DwarFS image. Construction decompresses the
/// schema and metadata sections and decodes every table needed for
/// path traversal and chunk resolution.
pub struct Filesystem<S: ImageSource = Vec<u8>> {
    image: Image<S>,
    block_records: Vec<SectionRecord>,
    tree: Tree,
}

impl<S: ImageSource> View for Filesystem<S> {
    type V = FsView;

    closed spec fn view(&self) -> FsView {
        FsView { image: self.image@, tree: self.tree@ }
    }
}

/// Decode the tree that a schema and a metadata blob describe.
pub fn read_tree(schema_bytes: &[u8], metadata_bytes: &[u8]) -> (r: Result<Tree, Error>)
    ensures
        viewed(r) == decode_tree(schema_bytes@, metadata_bytes@),
        r matches Ok(t) ==> t@.consistent(),
{
    proof {
        reveal(decode_tree);
    }
    let schema: Schema = Schema::parse(schema_bytes)?;
    let m: Metadata<'_> = Metadata::parse(&schema, metadata_bytes)?;
    let tables: Tables = Tables::recorded(&m)?;
    Tree::build(tables.unpack())
}

fn section_missing(kind: SectionType) -> (e: Error)
    ensures
        e@ == missing_section(kind),
{
    corrupt(Text::of("required section type ").str(kind.describe().as_str()).str(" missing"))
}

fn not_a_regular_file(inode: u32) -> (e: Error)
    ensures
        e@ == not_a(inode, "regular file"@),
{
    corrupt(Text::of("inode ").num(inode as u64).str(" is not a ").str("regular file"))
}

/// The records of the block sections, in order.
fn collect_blocks(records: &[SectionRecord]) -> (r: Vec<SectionRecord>)
    ensures
        record_views(r@) == block_records(record_views(records@), records@.len()),
{
    let mut out: Vec<SectionRecord> = Vec::new();
    assert(record_views(out@) =~= Seq::<RecordView>::empty());
    let mut i: usize = 0;
    while i < records.len()
        invariant
            i <= records@.len(),
            record_views(out@) == block_records(record_views(records@), i as nat),
        decreases records@.len() - i,
    {
        let record: SectionRecord = records[i];
        if record.header.section_type == SectionType::Block {
            let ghost before = out@;
            out.push(record);
            assert(record_views(out@) =~= record_views(before).push(record@));
        }
        i = i + 1;
    }
    out
}

/// Where the part of a chunk that a read between `offset` and `want_end`
/// takes starts.
spec fn piece_start(v: FsView, i: int, offset: u64, want_end: u64) -> int {
    let start = v.chunk_start(i);
    if start <= offset {
        offset as int
    } else if start < want_end {
        start
    } else {
        want_end as int
    }
}

/// A piece written at `at` goes behind what was read before, and leaves the
/// rest of the buffer as it was.
proof fn lemma_piece_joined(
    first: Seq<u8>,
    before: Seq<u8>,
    after: Seq<u8>,
    at: int,
    piece: Seq<u8>,
    rest: Result<Seq<u8>, ErrorView>,
)
    requires
        0 <= at <= at + piece.len() <= before.len() == first.len(),
        before.skip(at) == first.skip(at),
        after == before.take(at) + piece + before.skip((at + piece.len()) as int),
    ensures
        after.skip((at + piece.len()) as int) == first.skip((at + piece.len()) as int),
        joined(Ok(before.take(at)), joined(Ok(piece), rest)) == joined(
            Ok(after.take((at + piece.len()) as int)),
            rest,
        ),
{
    let next = (at + piece.len()) as int;
    assert(after.take(next) =~= before.take(at) + piece);
    assert(after.skip(next) =~= before.skip(next));
    assert(before.skip(next) =~= before.skip(at).skip(next - at));
    assert(first.skip(next) =~= first.skip(at).skip(next - at));
    lemma_joined(before.take(at), piece, rest);
}

/// Copy `take` bytes of `src` from `from` on to `buf[at..]`.
fn copy_bytes(buf: &mut [u8], at: usize, take: usize, src: &[u8], from: usize)
    requires
        at + take <= old(buf)@.len(),
        from + take <= src@.len(),
    ensures
        final(buf)@ == old(buf)@.take(at as int) + src@.subrange(from as int, from + take) + old(
            buf,
        )@.skip(at + take),
{
    let ghost before = buf@;
    let room: usize = buf.len();
    let have: usize = src.len();
    let mut k: usize = 0;
    while k < take
        invariant
            k <= take,
            at + take <= room == buf@.len() == before.len(),
            from + take <= have == src@.len(),
            forall|j: int| 0 <= j < at ==> buf@[j] == before[j],
            forall|j: int| at <= j < at + k ==> #[trigger] buf@[j] == src@[from + (j - at)],
            forall|j: int| at + k <= j < before.len() ==> buf@[j] == before[j],
        decreases take - k,
    {
        buf[at + k] = src[from + k];
        k = k + 1;
    }
    assert(buf@ =~= before.take(at as int) + src@.subrange(from as int, from + take)
        + before.skip(at + take));
}

/// Write `take` zero bytes to `buf[at..]`.
fn fill_zeros(buf: &mut [u8], at: usize, take: usize)
    requires
        at + take <= old(buf)@.len(),
    ensures
        final(buf)@ == old(buf)@.take(at as int) + Seq::new(take as nat, |k: int| 0u8) + old(
            buf,
        )@.skip(at + take),
{
    let ghost before = buf@;
    let room: usize = buf.len();
    let mut k: usize = 0;
    while k < take
        invariant
            k <= take,
            at + take <= room == buf@.len() == before.len(),
            forall|j: int| 0 <= j < at ==> buf@[j] == before[j],
            forall|j: int| at <= j < at + k ==> #[trigger] buf@[j] == 0,
            forall|j: int| at + k <= j < before.len() ==> buf@[j] == before[j],
        decreases take - k,
    {
        buf[at + k] = 0;
        k = k + 1;
    }
    assert(buf@ =~= before.take(at as int) + Seq::new(take as nat, |k: int| 0u8) + before.skip(
        at + take,
    ));
}

/// What a read says of its outcome: bytes, or an error.
pub open spec fn read_outcome(
    r: Result<usize, Error>,
    before: Seq<u8>,
    after: Seq<u8>,
    reliable: bool,
    want: Result<Seq<u8>, ErrorView>,
) -> bool {
    match r {
        Ok(n) => want matches Ok(bytes) && bytes.len() == n && n <= before.len() && after == bytes
            + before.skip(n as int),
        Err(e) => answers(reliable, Err(e@), want),
    }
}

impl<S: ImageSource> Filesystem<S> {
    /// The tree is the image's, and the block records are its blocks.
    #[verifier::type_invariant]
    closed spec fn wf(&self) -> bool {
        &&& self@.consistent()
        &&& record_views(self.block_records@) == block_records(
            self@.image.sections,
            self@.image.sections.len(),
        )
    }

    /// Whether every read inside the image's source succeeds.
    pub closed spec fn reliable(&self) -> bool {
        self.image.reliable()
    }

    /// Open a DwarFS image and decode its metadata.
    pub fn open(image: Image<S>) -> (r: Result<Self, Error>)
        ensures
            r matches Ok(fs) ==> fs@.image == image@ && fs.reliable() == image.reliable()
                && fs@.consistent(),
            answers(
                image.reliable(),
                match r {
                    Ok(fs) => Ok::<TreeView, ErrorView>(fs@.tree),
                    Err(e) => Err(e@),
                },
                open_tree(image@),
            ),
    {
        proof {
            reveal(open_tree);
        }
        let schema_section: &SectionRecord = match image.find_section(
            SectionType::MetadataV2Schema,
        ) {
            Some(section) => section,
            None => {
                return Err(section_missing(SectionType::MetadataV2Schema));
            },
        };
        let metadata_section: &SectionRecord = match image.find_section(SectionType::MetadataV2) {
            Some(section) => section,
            None => {
                return Err(section_missing(SectionType::MetadataV2));
            },
        };
        let schema_bytes: Vec<u8> = image.decompress_section(schema_section, CAP_SCHEMA_BYTES)?;
        let metadata_bytes: Vec<u8> = image.decompress_section(
            metadata_section,
            CAP_METADATA_BYTES,
        )?;
        let tree: Tree = read_tree(schema_bytes.as_slice(), metadata_bytes.as_slice())?;
        let block_records: Vec<SectionRecord> = collect_blocks(image.sections());
        Ok(Filesystem { image, block_records, tree })
    }

    /// Borrow the image this filesystem reads from.
    pub fn image(&self) -> (r: &Image<S>)
        ensures
            r@ == self@.image,
            r.reliable() == self.reliable(),
    {
        &self.image
    }

    /// Borrow the directory tree.
    pub fn tree(&self) -> (r: &Tree)
        ensures
            r@ == self@.tree,
            self@.consistent(),
    {
        proof {
            use_type_invariant(self);
        }
        &self.tree
    }

    /// Number of block sections.
    pub fn block_count(&self) -> (r: usize)
        ensures
            r == block_records(self@.image.sections, self@.image.sections.len()).len(),
    {
        proof {
            use_type_invariant(self);
        }
        self.block_records.len()
    }

    /// Decode one block, without a cache.
    pub fn load_block(&self, block: u32) -> (r: Result<Vec<u8>, Error>)
        ensures
            answers(self.reliable(), viewed(r), self@.block_bytes(block)),
    {
        proof {
            use_type_invariant(self);
            reveal(FsView::block_bytes);
        }
        if block as usize >= self.block_records.len() {
            return Err(corrupt(Text::of("block ").num(block as u64).str(" out of range")));
        }
        assert(record_views(self.block_records@)[block as int]
            == self.block_records@[block as int]@);
        self.image.decompress_section(
            &self.block_records[block as usize],
            self.tree.tables().block_size as usize,
        )
    }

    fn decode_block(&self, cache: &mut BlockCache, block: u32) -> (r: Result<Arc<Vec<u8>>, Error>)
        ensures
            agrees(old(cache)@, self@) ==> agrees(final(cache)@, self@) && answers(
                self.reliable(),
                match r {
                    Ok(bytes) => Ok::<Seq<u8>, ErrorView>(bytes@),
                    Err(e) => Err(e@),
                },
                self@.block_bytes(block),
            ),
            r matches Ok(bytes) ==> final(cache)@.resident(block) == Some(bytes@) && final(cache)@
                == fetch_one(old(cache)@, self@, block) && (old(cache)@.hit(block) is Some
                || self@.block_bytes(block) is Ok),
            r is Err ==> final(cache)@ == old(cache)@,
    {
        let ghost before = cache@;
        if let Some(bytes) = cache.cached(block) {
            proof {
                lemma_position(before.blocks, block, 0);
                if agrees(before, self@) {
                    lemma_touch_agrees(before, self@, block);
                    let i = crate::fs::cache::position(before.blocks, block)->Some_0;
                    assert(before.blocks[i as int].0 == block);
                }
            }
            return Ok(bytes);
        }
        let decoded: Vec<u8> = self.load_block(block)?;
        let bytes: Arc<Vec<u8>> = Arc::new(decoded);
        proof {
            if agrees(before, self@) {
                lemma_store_agrees(before, self@, block, bytes@);
            }
        }
        let kept: Arc<Vec<u8>> = crate::fs::cache::share(&bytes);
        cache.insert(block, kept);
        Ok(bytes)
    }

    /// Length of a chunk that belongs to a file.
    fn chunk_logical_len(&self, i: usize) -> (r: u64)
        requires
            i < self@.tree.tables.chunks.len(),
            self@.rules().len(self@.tree.tables.chunks[i as int]) is Ok,
        ensures
            self@.rules().len(self@.tree.tables.chunks[i as int]) == Ok::<u64, ErrorView>(r),
    {
        let t: &Tables = self.tree.tables();
        match chunk_len(
            &t.chunks[i],
            t.hole_block_index,
            t.block_size,
            t.large_hole_size.as_slice(),
        ) {
            Ok(n) => n,
            Err(_) => {
                assert(false);
                0
            },
        }
    }

    fn is_hole_chunk(&self, chunk: &Chunk) -> (r: bool)
        ensures
            r == self@.rules().is_hole(*chunk),
    {
        match self.tree.tables().hole_block_index {
            Some(hole) => hole == chunk.block,
            None => false,
        }
    }

    /// First of the chunks `start..end` that can contain `offset` or
    /// anything after it.
    ///
    /// The chunk ends are monotonic within a file, so it is found by
    /// binary search rather than by walking the file from byte zero.
    fn chunks_covering(&self, start: usize, end: usize, offset: u64) -> (r: usize)
        requires
            file_chunks(self@, start as int, end as int),
            start <= end <= self@.tree.chunk_end.len(),
        ensures
            r == self@.covering(start as int, end as int, offset as int),
            start <= r <= end,
    {
        let ends: &[u64] = self.tree.chunk_end();
        let ghost want = self@.covering(start as int, end as int, offset as int);
        proof {
            lemma_covering(self@, start as int, start as int, end as int, offset as int);
        }
        let mut lo: usize = start;
        let mut hi: usize = end;
        while lo < hi
            invariant
                start <= lo <= want <= hi <= end <= ends@.len(),
                ends@ == self@.tree.chunk_end,
                want == self@.covering(start as int, end as int, offset as int),
                forall|j: int| start <= j < want ==> #[trigger] self@.chunk_stop(j) <= offset,
                forall|j: int| want <= j < end ==> #[trigger] self@.chunk_stop(j) > offset,
            decreases hi - lo,
        {
            let mid: usize = lo + (hi - lo) / 2;
            assert(self@.chunk_stop(mid as int) == ends@[mid as int]);
            if ends[mid] <= offset {
                lo = mid + 1;
            } else {
                hi = mid;
            }
        }
        lo
    }

    /// Read from `inode` at `offset` into `buf`, returning how many
    /// bytes were written.
    ///
    /// A return value below `buf.len()` means the read reached the end
    /// of the file; the rest of `buf` is left untouched. Decoded blocks
    /// are kept in `cache` so successive reads against the same file, or
    /// any other file backed by the same blocks, do not decompress
    /// again. Chunks pointing at the hole block index expand to zero
    /// bytes.
    ///
    /// A read that is refused before it starts, of anything but a regular
    /// file with a chunk range, leaves `buf` and `cache` as they are. One
    /// that fails on a block may have written to `buf` before.
    pub fn read_into(&self, inode: u32, offset: u64, buf: &mut [u8], cache: &mut BlockCache) -> (r:
        Result<usize, Error>)
        ensures
            final(buf)@.len() == old(buf)@.len(),
            self@.tree.kind(inode) != Ok::<InodeKind, ErrorView>(InodeKind::Regular)
                || self@.tree.chunk_range(inode) is Err ==> final(buf)@ == old(buf)@ && final(cache)@ == old(cache)@,
            went_through(
                old(cache)@,
                final(cache)@,
                self@,
                self@.blocks_of_read(inode, offset, old(buf)@.len()),
                r is Ok,
            ),
            final(cache)@.budget == old(cache)@.budget,
            within_budget(final(cache)@),
            agrees(old(cache)@, self@) ==> agrees(final(cache)@, self@) && read_outcome(
                r,
                old(buf)@,
                final(buf)@,
                self.reliable(),
                self@.read(inode, offset, old(buf)@.len()),
            ),
    {
        let ghost before = cache@;
        proof {
            use_type_invariant(&*cache);
            cache.lemma_wf();
            lemma_went_nowhere(before, self@, Seq::empty());
        }
        if self.tree.kind(inode)? != InodeKind::Regular {
            return Err(not_a_regular_file(inode));
        }
        let (start, end): (usize, usize) = self.tree.chunk_range(inode)?;
        proof {
            use_type_invariant(self);
            lemma_file_chunks(self@, inode);
        }
        let r = self.read_chunk_range(start, end, offset, buf, cache);
        proof {
            lemma_went_within(
                before,
                cache@,
                self@,
                self@.blocks_of_read(inode, offset, buf@.len()),
                r is Ok,
            );
        }
        r
    }

    /// Copy bytes `lo..hi` of a chunk to `buf[at..]`.
    fn read_piece(
        &self,
        i: usize,
        lo: u64,
        hi: u64,
        at: usize,
        buf: &mut [u8],
        cache: &mut BlockCache,
    ) -> (r: Result<(), Error>)
        requires
            i < self@.tree.tables.chunks.len(),
            lo <= hi,
            at + (hi - lo) <= old(buf)@.len(),
            !self@.rules().is_hole(self@.tree.tables.chunks[i as int]) ==> hi <= u32::MAX,
        ensures
            final(buf)@.len() == old(buf)@.len(),
            self@.rules().is_hole(self@.tree.tables.chunks[i as int]) ==> final(cache)@ == old(
                cache,
            )@,
            final(cache)@ == fetch_one(
                old(cache)@,
                self@,
                self@.tree.tables.chunks[i as int].block,
            ) || ((r is Err || self@.rules().is_hole(self@.tree.tables.chunks[i as int])) && final(cache)@ == old(cache)@),
            agrees(old(cache)@, self@) ==> agrees(final(cache)@, self@) && match r {
                Ok(_) => self@.chunk_bytes(i as int, lo as int, hi as int) matches Ok(piece)
                    && piece.len() == hi - lo && final(buf)@ == old(buf)@.take(at as int) + piece
                    + old(buf)@.skip(at + (hi - lo)),
                Err(e) => answers(
                    self.reliable(),
                    Err::<Seq<u8>, ErrorView>(e@),
                    self@.chunk_bytes(i as int, lo as int, hi as int),
                ),
            },
    {
        proof {
            reveal(FsView::chunk_bytes);
        }
        let room: usize = buf.len();
        let take: usize = (hi - lo) as usize;
        let chunk: Chunk = self.tree.tables().chunks[i];
        if self.is_hole_chunk(&chunk) {
            fill_zeros(buf, at, take);
            return Ok(());
        }
        let block_start: u64 = chunk.offset as u64 + lo;
        let block_end: u64 = chunk.offset as u64 + hi;
        let block: Arc<Vec<u8>> = self.decode_block(cache, chunk.block)?;
        if block_end > block.len() as u64 {
            return Err(
                corrupt(
                    Text::of("chunk ").num(block_start).str("..").num(block_end).str(
                        " exceeds block of ",
                    ).num(block.len() as u64).str(" bytes"),
                ),
            );
        }
        copy_bytes(buf, at, take, block.as_slice(), block_start as usize);
        Ok(())
    }

    #[verifier::spinoff_prover]
    #[verifier::rlimit(60)]
    fn read_chunk_range(
        &self,
        start: usize,
        end: usize,
        offset: u64,
        buf: &mut [u8],
        cache: &mut BlockCache,
    ) -> (r: Result<usize, Error>)
        requires
            file_chunks(self@, start as int, end as int),
            start <= end <= self@.tree.chunk_end.len(),
            self@.tree.tables.chunks.len() == self@.tree.chunk_end.len(),
        ensures
            final(buf)@.len() == old(buf)@.len(),
            went_through(
                old(cache)@,
                final(cache)@,
                self@,
                self@.blocks_read(
                    start as int,
                    end as int,
                    offset as int,
                    read_end(offset, old(buf)@.len()) as int,
                ),
                r is Ok,
            ),
            agrees(old(cache)@, self@) ==> agrees(final(cache)@, self@) && read_outcome(
                r,
                old(buf)@,
                final(buf)@,
                self.reliable(),
                self@.read_chunks(
                    start as int,
                    end as int,
                    offset as int,
                    read_end(offset, old(buf)@.len()) as int,
                ),
            ),
    {
        let ghost v = self@;
        let ghost first = buf@;
        let ghost ok = agrees(cache@, v);
        let ghost held = cache@;
        let ghost mut done: Seq<u32> = Seq::empty();
        let len: usize = buf.len();
        let want_end: u64 = offset.saturating_add(len as u64);
        let ghost blocks = v.blocks_read(start as int, end as int, offset as int, want_end as int);
        let ghost want = v.read_chunks(start as int, end as int, offset as int, want_end as int);
        let mut written: usize = 0;
        let mut i: usize = self.chunks_covering(start, end, offset);
        proof {
            lemma_skip_to_covering(
                v,
                start as int,
                start as int,
                end as int,
                offset as int,
                want_end as int,
            );
            if i < end {
                lemma_covering_start(v, start as int, end as int, offset as int);
                lemma_covering(v, start as int, start as int, end as int, offset as int);
                assert(v.chunk_stop(i as int) > offset);
            }
            assert(buf@.take(0) =~= Seq::<u8>::empty());
            lemma_joined(
                Seq::empty(),
                Seq::empty(),
                v.read_chunks(i as int, end as int, offset as int, want_end as int),
            );
            let rest = v.blocks_read(i as int, end as int, offset as int, want_end as int);
            assert(done + rest =~= rest);
        }
        while i < end && written < len
            invariant
                v == self@,
                file_chunks(v, start as int, end as int),
                start <= i <= end <= v.tree.chunk_end.len() == v.tree.tables.chunks.len(),
                len == buf@.len() == first.len(),
                first == old(buf)@,
                held == old(cache)@,
                blocks == v.blocks_read(start as int, end as int, offset as int, want_end as int),
                blocks == done + v.blocks_read(
                    i as int,
                    end as int,
                    offset as int,
                    want_end as int,
                ),
                cache@ == fetched(held, v, done),
                ok == agrees(old(cache)@, v),
                want == v.read_chunks(start as int, end as int, offset as int, want_end as int),
                want_end == read_end(offset, len as nat),
                written <= want_end - offset,
                ok ==> agrees(cache@, v),
                ok ==> buf@.skip(written as int) == first.skip(written as int),
                i < end ==> written == piece_start(v, i as int, offset, want_end) - offset,
                i < end ==> v.chunk_stop(i as int) > offset || v.chunk_start(i as int) >= offset,
                ok ==> want == joined(
                    Ok(buf@.take(written as int)),
                    v.read_chunks(i as int, end as int, offset as int, want_end as int),
                ),
            decreases end - i,
        {
            proof {
                lemma_chunk_at(v, start as int, i as int, end as int);
                if i + 1 < end {
                    lemma_chunk_at(v, start as int, i + 1, end as int);
                }
            }
            let stop: u64 = self.tree.chunk_end()[i];
            let size: u64 = self.chunk_logical_len(i);
            let cursor: u64 = stop - size;
            proof {
                lemma_read_step(v, i as int, end as int, offset as int, want_end as int);
                lemma_blocks_step(v, i as int, end as int, offset as int, want_end as int);
            }
            if cursor >= want_end {
                proof {
                    lemma_joined(buf@.take(written as int), Seq::empty(), Ok(Seq::empty()));
                    lemma_went_so_far(held, cache@, v, done, Seq::empty());
                }
                assert(buf@ =~= buf@.take(written as int) + buf@.skip(written as int));
                return Ok(written);
            }
            let from: u64 = if offset > cursor {
                offset
            } else {
                cursor
            };
            let to: u64 = if want_end < stop {
                want_end
            } else {
                stop
            };
            let ghost before = buf@;
            let ghost rest = v.blocks_read(i + 1, end as int, offset as int, want_end as int);
            let ghost chunk = v.tree.tables.chunks[i as int];
            if stop > offset {
                let ghost asked = cache@;
                let piece_read = self.read_piece(
                    i,
                    from - cursor,
                    to - cursor,
                    written,
                    buf,
                    cache,
                );
                proof {
                    done = lemma_piece_went(
                        held,
                        asked,
                        cache@,
                        v,
                        done,
                        v.rules().is_hole(chunk),
                        chunk.block,
                        rest,
                        piece_read is Ok,
                    );
                }
                piece_read?;
                let ghost piece = v.chunk_bytes(i as int, from - cursor, to - cursor)->Ok_0;
                let ghost at = written as int;
                written = written + (to - from) as usize;
                proof {
                    if ok {
                        lemma_piece_joined(
                            first,
                            before,
                            buf@,
                            at,
                            piece,
                            v.read_chunks(i + 1, end as int, offset as int, want_end as int),
                        );
                    }
                }
            }
            i = i + 1;
        }
        proof {
            lemma_read_step(v, i as int, end as int, offset as int, want_end as int);
            lemma_joined(buf@.take(written as int), Seq::empty(), Ok(Seq::empty()));
            lemma_blocks_step(v, i as int, end as int, offset as int, want_end as int);
            lemma_went_so_far(held, cache@, v, done, Seq::empty());
        }
        assert(buf@ =~= buf@.take(written as int) + buf@.skip(written as int));
        Ok(written)
    }

    /// Read up to `size` bytes from `inode` starting at `offset` into
    /// a fresh buffer.
    ///
    /// A short buffer (possibly empty) means the read ran past the end
    /// of the file. Prefer [`Filesystem::read_into`] when the caller
    /// already owns a buffer.
    pub fn read_at(&self, inode: u32, offset: u64, size: u64, cache: &mut BlockCache) -> (r: Result<
        Vec<u8>,
        Error,
    >)
        ensures
            agrees(old(cache)@, self@) ==> agrees(final(cache)@, self@) && answers(
                self.reliable(),
                viewed(r),
                self@.read_at(inode, offset, size),
            ),
            r matches Ok(bytes) ==> bytes@.len() <= size,
            went_through(
                old(cache)@,
                final(cache)@,
                self@,
                self@.blocks_of_read(inode, offset, self@.length_of_read(inode, offset, size)),
                r is Ok,
            ),
            final(cache)@.budget == old(cache)@.budget,
            within_budget(final(cache)@),
    {
        proof {
            use_type_invariant(&*cache);
            cache.lemma_wf();
            lemma_went_nowhere(
                cache@,
                self@,
                self@.blocks_of_read(inode, offset, self@.length_of_read(inode, offset, size)),
            );
        }
        let total: u64 = self.tree.file_size(inode)?;
        let left: u64 = total.saturating_sub(offset);
        let available: u64 = if left < size {
            left
        } else {
            size
        };
        if available > usize::MAX as u64 {
            return Err(
                corrupt(
                    Text::of("read of ").num(available).str(" bytes exceeds this platform"),
                ),
            );
        }
        let mut out: Vec<u8> = vec![0u8; available as usize];
        let written: usize = self.read_into(inode, offset, out.as_mut_slice(), cache)?;
        out.truncate(written);
        proof {
            if let Ok(bytes) = self@.read(inode, offset, available as nat) {
                if agrees(old(cache)@, self@) {
                    assert(out@ =~= bytes);
                }
            }
        }
        Ok(out)
    }

    /// Read all bytes of a regular file into a fresh `Vec<u8>`. Hole
    /// chunks expand to zero bytes; sparse-aware callers should use
    /// [`Filesystem::read_at`] instead so the cache survives across
    /// reads.
    pub fn read_file(&self, inode: u32) -> (r: Result<Vec<u8>, Error>)
        ensures
            answers(self.reliable(), viewed(r), self@.read_file(inode)),
    {
        let size: u64 = self.tree.file_size(inode)?;
        let block_size: usize = self.tree.tables().block_size as usize;
        let mut cache = BlockCache::new(block_size.saturating_add(block_size));
        proof {
            lemma_empty_agrees(cache@, self@);
        }
        self.read_at(inode, 0, size, &mut cache)
    }

    /// Borrow `len` bytes at `offset` directly out of the block cache.
    ///
    /// Returns `Some` only when the range lies wholly inside one chunk
    /// of one block, which lets a caller hand the slice straight to a
    /// vectored write instead of copying it. Returns `None` when the
    /// range spans chunks, falls in a sparse hole, or runs past the end
    /// of the file; the caller then falls back to
    /// [`Filesystem::read_into`]. An empty range needs no chunk: it
    /// gives an empty slice wherever it lies, a hole and the end of the
    /// file included.
    pub fn read_borrowed<'cache>(
        &self,
        inode: u32,
        offset: u64,
        len: usize,
        cache: &'cache mut BlockCache,
    ) -> (r: Result<Option<&'cache [u8]>, Error>)
        ensures
            agrees(old(cache)@, self@) ==> agrees(final(cache)@, self@) && answers(
                self.reliable(),
                match r {
                    Ok(Some(bytes)) => Ok::<Option<Seq<u8>>, ErrorView>(Some(bytes@)),
                    Ok(None) => Ok(None),
                    Err(e) => Err(e@),
                },
                self@.borrow(inode, offset, len as nat),
            ),
            went_through(
                old(cache)@,
                final(cache)@,
                self@,
                self@.blocks_of_borrow(inode, offset, len as nat),
                r is Ok,
            ),
            final(cache)@.budget == old(cache)@.budget,
            within_budget(final(cache)@),
    {
        let ghost held = cache@;
        let ghost blocks = self@.blocks_of_borrow(inode, offset, len as nat);
        proof {
            use_type_invariant(&*cache);
            cache.lemma_wf();
            lemma_went_nowhere(held, self@, blocks);
        }
        if self.tree.kind(inode)? != InodeKind::Regular {
            return Err(not_a_regular_file(inode));
        }
        if len == 0 {
            let empty: &'cache [u8] = &[];
            assert(empty@ =~= Seq::<u8>::empty());
            return Ok(Some(empty));
        }
        let (start, end): (usize, usize) = self.tree.chunk_range(inode)?;
        proof {
            use_type_invariant(self);
            lemma_file_chunks(self@, inode);
        }
        let i: usize = self.chunks_covering(start, end, offset);
        if i >= end {
            return Ok(None);
        }
        let chunk: Chunk = self.tree.tables().chunks[i];
        if self.is_hole_chunk(&chunk) {
            return Ok(None);
        }
        proof {
            lemma_chunk_at(self@, start as int, i as int, end as int);
            lemma_covering_start(self@, start as int, end as int, offset as int);
            lemma_covering(self@, start as int, start as int, end as int, offset as int);
            assert(self@.chunk_stop(i as int) > offset);
            reveal(FsView::chunk_bytes);
        }
        let stop: u64 = self.tree.chunk_end()[i];
        if len as u64 > stop - offset {
            return Ok(None);
        }
        let cursor: u64 = stop - self.chunk_logical_len(i);
        let block_start: u64 = chunk.offset as u64 + (offset - cursor);
        let block_end: u64 = block_start + len as u64;
        assert(blocks == seq![chunk.block]);
        let decoded: usize = self.decode_block(cache, chunk.block)?.len();
        proof {
            lemma_fetched_push(held, self@, Seq::empty(), chunk.block);
            assert(Seq::<u32>::empty().push(chunk.block) =~= blocks);
            assert(blocks + Seq::<u32>::empty() =~= blocks);
            lemma_went_so_far(held, cache@, self@, blocks, Seq::empty());
            lemma_went_within(held, cache@, self@, blocks, true);
            lemma_went_within(held, cache@, self@, blocks, false);
            lemma_fetched_is_last(held, self@, chunk.block);
        }
        if block_end > decoded as u64 {
            return Err(
                corrupt(
                    Text::of("chunk ").num(block_start).str("..").num(block_end).str(
                        " exceeds block of ",
                    ).num(decoded as u64).str(" bytes"),
                ),
            );
        }
        proof {
            if agrees(cache@, self@) {
                lemma_touch_agrees(cache@, self@, chunk.block);
            }
        }
        match cache.resident(chunk.block) {
            Some(block) => Ok(
                Some(
                    vstd::slice::slice_subrange(block, block_start as usize, block_end as usize),
                ),
            ),
            None => Err(corrupt(Text::of("block cache lost entry"))),
        }
    }

    /// Blocks that a read of `len` bytes at `offset` takes bytes from, in
    /// the order it does. Lets several readers decode them ahead of the
    /// read, each block once.
    pub fn blocks_in_range(&self, inode: u32, offset: u64, len: u64) -> (r: Result<
        Vec<u32>,
        Error,
    >)
        ensures
            match self@.tree.chunk_range(inode) {
                Err(e) => viewed(r) == Err::<Seq<u32>, ErrorView>(e),
                Ok((start, end)) => viewed(r) == Ok::<Seq<u32>, ErrorView>(
                    self@.blocks_read(
                        start as int,
                        end as int,
                        offset as int,
                        read_end(offset, len as nat) as int,
                    ),
                ),
            },
    {
        let (start, end): (usize, usize) = self.tree.chunk_range(inode)?;
        proof {
            use_type_invariant(self);
            lemma_file_chunks(self@, inode);
        }
        let ghost v = self@;
        let want_end: u64 = offset.saturating_add(len);
        let mut out: Vec<u32> = Vec::new();
        let mut i: usize = self.chunks_covering(start, end, offset);
        let ghost want = v.blocks_read(start as int, end as int, offset as int, want_end as int);
        proof {
            lemma_skip_to_covering(
                v,
                start as int,
                start as int,
                end as int,
                offset as int,
                want_end as int,
            );
            let rest = v.blocks_read(i as int, end as int, offset as int, want_end as int);
            assert(out@ + rest =~= rest);
        }
        while i < end
            invariant
                v == self@,
                file_chunks(v, start as int, end as int),
                start <= i <= end <= v.tree.chunk_end.len() == v.tree.tables.chunks.len(),
                self@.tree.chunk_range(inode) == Ok::<(nat, nat), ErrorView>(
                    (start as nat, end as nat),
                ),
                want_end == read_end(offset, len as nat),
                want == v.blocks_read(start as int, end as int, offset as int, want_end as int),
                want == out@ + v.blocks_read(
                    i as int,
                    end as int,
                    offset as int,
                    want_end as int,
                ),
            decreases end - i,
        {
            proof {
                lemma_chunk_at(v, start as int, i as int, end as int);
            }
            let stop: u64 = self.tree.chunk_end()[i];
            let cursor: u64 = stop - self.chunk_logical_len(i);
            if offset >= want_end || cursor >= want_end {
                assert(out@ + Seq::<u32>::empty() =~= out@);
                return Ok(out);
            }
            let chunk: Chunk = self.tree.tables().chunks[i];
            let ghost before = out@;
            let ghost rest = v.blocks_read(i + 1, end as int, offset as int, want_end as int);
            if stop > offset && !self.is_hole_chunk(&chunk) {
                out.push(chunk.block);
                assert(before + (seq![chunk.block] + rest) =~= out@ + rest);
            }
            i = i + 1;
        }
        assert(out@ + Seq::<u32>::empty() =~= out@);
        Ok(out)
    }

    /// Feature names the image declares.
    pub fn features(&self) -> (r: &[String])
        ensures
            texts(r@) == self@.tree.tables.features,
    {
        self.tree.tables().features.as_slice()
    }

    /// Path separator the source filesystem preferred, when recorded.
    pub fn preferred_path_separator(&self) -> (r: Option<u32>)
        ensures
            r == self@.tree.tables.preferred_path_separator,
    {
        self.tree.tables().preferred_path_separator
    }

    /// Total size of the original tree in bytes, as recorded.
    pub fn total_fs_size(&self) -> (r: u64)
        ensures
            r == self@.tree.tables.total_fs_size,
    {
        self.tree.tables().total_fs_size
    }

    /// Total allocated size of the original tree, when recorded. Differs
    /// from [`Filesystem::total_fs_size`] for trees with sparse files.
    pub fn total_allocated_fs_size(&self) -> (r: Option<u64>)
        ensures
            r == self@.tree.tables.total_allocated_fs_size,
    {
        self.tree.tables().total_allocated_fs_size
    }

    /// Category name recorded for a block, when the image records
    /// categorisation at all.
    pub fn block_category(&self, block: u32) -> (r: Option<&str>)
        ensures
            match r {
                Some(name) => block < self@.tree.tables.block_category_names.len() && name@
                    == self@.tree.tables.block_category_names[block as int],
                None => block >= self@.tree.tables.block_category_names.len(),
            },
    {
        self.tree.block_category(block)
    }

    /// Distinct category names recorded in the image, in the order the
    /// image lists them.
    pub fn category_names(&self) -> (r: Vec<&str>)
        ensures
            r@.map_values(|s: &str| s@) == distinct_from(
                self@.tree.tables.block_category_names,
                0,
                Seq::empty(),
            ),
    {
        self.tree.category_names()
    }

    /// Block size in bytes.
    pub fn block_size(&self) -> (r: u32)
        ensures
            r == self@.tree.tables.block_size,
    {
        self.tree.tables().block_size
    }

    /// Time-stamp base value; mtime = `timestamp_base + mtime_offset * resolution`.
    pub fn timestamp_base(&self) -> (r: u64)
        ensures
            r == self@.tree.tables.timestamp_base,
    {
        self.tree.tables().timestamp_base
    }

    /// Filesystem options (packing flags, mtime-only, btime).
    pub fn options(&self) -> (r: FsOptions)
        ensures
            r == self@.tree.tables.options,
    {
        self.tree.tables().options
    }

    /// Inode-type boundaries.
    pub fn offsets(&self) -> (r: InodeOffsets)
        ensures
            r == self@.tree.offsets,
    {
        self.tree.offsets()
    }

    /// Total number of inodes.
    pub fn inode_count(&self) -> (r: u32)
        ensures
            r == self@.tree.tables.inodes.len(),
    {
        proof {
            use_type_invariant(self);
            reveal(tree_of);
            lemma_offsets_ordered(
                self@.tree.tables.inodes,
                self@.tree.tables.modes,
                self@.tree.tables.shared_files.len(),
            );
        }
        self.tree.offsets().total
    }

    /// Kind of an inode by number.
    pub fn kind(&self, inode: u32) -> (r: Result<InodeKind, Error>)
        ensures
            viewed(r) == self@.tree.kind(inode),
    {
        self.tree.kind(inode)
    }

    /// Stat an inode.
    pub fn stat(&self, inode: u32) -> (r: Result<Stat, Error>)
        ensures
            viewed(r) == self@.tree.stat(inode),
    {
        self.tree.stat(inode)
    }

    /// Encoded `(major << 32) | minor` device number for a device
    /// inode. Returns an error if `inode` is not a block or character
    /// device.
    pub fn device_rdev(&self, inode: u32) -> (r: Result<u64, Error>)
        ensures
            viewed(r) == self@.tree.device_rdev(inode),
    {
        self.tree.device_rdev(inode)
    }

    /// Symlink target as raw bytes. Errors if `inode` is not a symlink.
    pub fn read_link(&self, inode: u32) -> (r: Result<&[u8], Error>)
        ensures
            match r {
                Ok(target) => self@.tree.read_link(inode) == Ok::<Seq<u8>, ErrorView>(target@),
                Err(e) => self@.tree.read_link(inode) == Err::<Seq<u8>, ErrorView>(e@),
            },
    {
        self.tree.read_link(inode)
    }

    /// Total file size in bytes; 0 for non-regular files.
    pub fn file_size(&self, inode: u32) -> (r: Result<u64, Error>)
        ensures
            viewed(r) == self@.tree.file_size(inode),
    {
        self.tree.file_size(inode)
    }

    /// Resolve a slash-separated path to an inode. Path is interpreted
    /// as `/`-rooted regardless of leading separator.
    pub fn lookup(&self, path: &[u8]) -> (r: Result<Node, Error>)
        ensures
            viewed(r) == self@.tree.lookup(path@),
    {
        self.tree.lookup(path)
    }

    /// Inode of the entry called `name` in a directory, if there is one.
    pub fn lookup_child(&self, dir_inode: u32, name: &[u8]) -> (r: Result<Option<u32>, Error>)
        ensures
            viewed(r) == self@.tree.lookup_child(dir_inode, name@),
    {
        self.tree.lookup_child(dir_inode, name)
    }

    /// Parent directory of a directory inode. The root is its own
    /// parent.
    pub fn parent(&self, inode: u32) -> (r: Result<u32, Error>)
        ensures
            viewed(r) == self@.tree.parent(inode),
    {
        self.tree.parent(inode)
    }

    /// List the entries of a directory inode.
    pub fn read_dir(&self, inode: u32) -> (r: Result<Vec<Listing>, Error>)
        ensures
            match r {
                Ok(v) => self@.tree.read_dir(inode) == Ok::<Seq<ListingView>, ErrorView>(
                    listings(v@),
                ),
                Err(e) => self@.tree.read_dir(inode) == Err::<Seq<ListingView>, ErrorView>(e@),
            },
    {
        self.tree.read_dir(inode)
    }

    /// Block holding the first chunk of a regular file, when it has
    /// one. Lets a bulk reader visit files in block order so a bounded
    /// cache sees each block once instead of once per file.
    pub fn first_block(&self, inode: u32) -> (r: Option<u32>)
        ensures
            r == self@.tree.first_block(inode),
    {
        self.tree.first_block(inode)
    }

    /// Identity of a regular file's content for deduplication
    /// purposes. Inodes that share the same chunk range return the
    /// same value, regardless of whether they are unique or shared
    /// inodes in the DwarFS sense.
    pub fn content_id(&self, inode: u32) -> (r: Result<u32, Error>)
        ensures
            viewed(r) == self@.tree.content_id(inode),
    {
        self.tree.content_id(inode)
    }
}

} // verus!
