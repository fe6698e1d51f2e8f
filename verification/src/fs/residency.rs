//! What reading a filesystem does to the cache it reads through.

use crate::error::ErrorView;
use crate::fs::cache::{
    CacheView, distinct, lemma_position, lemma_store_distinct, lemma_store_resident,
    lemma_store_within, lemma_touch_keeps, lemma_touch_last, lemma_touch_puts_last,
    lemma_total_push, lemma_touch_resident, lemma_touch_within, position, stored, total, touched,
    within_budget,
};
use crate::fs::content::{FsView, read_end};
use crate::fs::inode::InodeKind;
use vstd::prelude::*;

verus! {

/// A cache after a block was asked of it: the block was used, or else
/// decoded and added, where it could be.
pub open spec fn fetch_one(c: CacheView, v: FsView, block: u32) -> CacheView {
    match c.hit(block) {
        Some(_) => c.touch(block),
        None => match v.block_bytes(block) {
            Ok(bytes) => c.store(block, bytes),
            Err(_) => c,
        },
    }
}

/// A cache after several blocks were asked of it, in order.
pub open spec fn fetched(c: CacheView, v: FsView, blocks: Seq<u32>) -> CacheView
    decreases blocks.len(),
{
    if blocks.len() == 0 {
        c
    } else {
        fetch_one(fetched(c, v, blocks.drop_last()), v, blocks.last())
    }
}

/// Whether a cache was asked for blocks in order, all of them where `whole`
/// holds and else maybe only the first ones.
pub open spec fn went_through(
    before: CacheView,
    after: CacheView,
    v: FsView,
    blocks: Seq<u32>,
    whole: bool,
) -> bool {
    exists|k: int|
        0 <= k <= blocks.len() && after == #[trigger] fetched(before, v, blocks.take(k)) && (whole
            ==> k == blocks.len())
}

impl FsView {
    /// The blocks that a read of `len` bytes of a file takes bytes from.
    pub open spec fn blocks_of_read(self, inode: u32, offset: u64, len: nat) -> Seq<u32> {
        if self.tree.kind(inode) == Ok::<InodeKind, ErrorView>(InodeKind::Regular) {
            match self.tree.chunk_range(inode) {
                Err(_) => Seq::empty(),
                Ok((start, end)) => self.blocks_read(
                    start as int,
                    end as int,
                    offset as int,
                    read_end(offset, len) as int,
                ),
            }
        } else {
            Seq::empty()
        }
    }

    /// The bytes that a read of at most `size` bytes asks for.
    pub open spec fn length_of_read(self, inode: u32, offset: u64, size: u64) -> nat {
        match self.tree.file_size(inode) {
            Ok(total) => Self::available(total, offset, size) as nat,
            Err(_) => 0,
        }
    }

    /// The block that a range of a file is borrowed from, where it lies in
    /// one chunk of one.
    pub open spec fn blocks_of_borrow(self, inode: u32, offset: u64, len: nat) -> Seq<u32> {
        match self.tree.chunk_range(inode) {
            Err(_) => Seq::empty(),
            Ok((start, end)) => {
                let i = self.covering(start as int, end as int, offset as int);
                if self.tree.kind(inode) != Ok::<InodeKind, ErrorView>(InodeKind::Regular) || len
                    == 0 || i >= end || self.rules().is_hole(self.tree.tables.chunks[i]) || offset
                    + len > self.chunk_stop(i) {
                    Seq::empty()
                } else {
                    seq![self.tree.tables.chunks[i].block]
                }
            },
        }
    }
}

/// Asking for one more block.
pub proof fn lemma_fetched_push(c: CacheView, v: FsView, blocks: Seq<u32>, block: u32)
    ensures
        fetched(c, v, blocks.push(block)) == fetch_one(fetched(c, v, blocks), v, block),
{
    assert(blocks.push(block).drop_last() =~= blocks);
}

/// Asking for blocks leaves a cache's budget as it is, and the cache within
/// it.
pub proof fn lemma_fetched_within(c: CacheView, v: FsView, blocks: Seq<u32>)
    requires
        within_budget(c),
    ensures
        within_budget(fetched(c, v, blocks)),
        fetched(c, v, blocks).budget == c.budget,
        fetched(c, v, blocks).loading == c.loading,
    decreases blocks.len(),
{
    if blocks.len() > 0 {
        lemma_fetched_within(c, v, blocks.drop_last());
        let now = fetched(c, v, blocks.drop_last());
        let block = blocks.last();
        lemma_touch_within(now, block);
        if let Ok(bytes) = v.block_bytes(block) {
            lemma_store_within(now, block, bytes);
        }
    }
}

/// Asking for nothing changes nothing.
pub proof fn lemma_went_nowhere(c: CacheView, v: FsView, blocks: Seq<u32>)
    ensures
        went_through(c, c, v, blocks, false),
        went_through(c, c, v, Seq::empty(), true),
{
    assert(fetched(c, v, blocks.take(0)) == c);
    assert(fetched(c, v, Seq::<u32>::empty().take(0)) == c);
}

/// Blocks asked for so far are the first ones of all.
pub proof fn lemma_went_so_far(
    before: CacheView,
    after: CacheView,
    v: FsView,
    done: Seq<u32>,
    rest: Seq<u32>,
)
    requires
        after == fetched(before, v, done),
    ensures
        went_through(before, after, v, done + rest, rest.len() == 0),
{
    let all = done + rest;
    assert(all.take(done.len() as int) =~= done);
}

/// The blocks of a read with one chunk more: its block comes first, unless
/// the chunk is a hole.
pub open spec fn blocks_from(hole: bool, block: u32, rest: Seq<u32>) -> Seq<u32> {
    if hole {
        rest
    } else {
        seq![block] + rest
    }
}

/// One chunk of a read.
pub proof fn lemma_blocks_step(v: FsView, i: int, end: int, from: int, to: int)
    ensures
        i >= end || from >= to || v.chunk_start(i) >= to ==> v.blocks_read(i, end, from, to)
            == Seq::<u32>::empty(),
        i < end && from < to && v.chunk_start(i) < to ==> v.blocks_read(i, end, from, to)
            == blocks_from(
            v.chunk_stop(i) <= from || v.rules().is_hole(v.tree.tables.chunks[i]),
            v.tree.tables.chunks[i].block,
            v.blocks_read(i + 1, end, from, to),
        ),
{
}

/// Reading one chunk asks for its block, unless it is a hole or the read
/// fails before.
pub proof fn lemma_piece_went(
    held: CacheView,
    asked: CacheView,
    now: CacheView,
    v: FsView,
    done: Seq<u32>,
    hole: bool,
    block: u32,
    rest: Seq<u32>,
    ok: bool,
) -> (next: Seq<u32>)
    requires
        asked == fetched(held, v, done),
        hole ==> now == asked,
        !hole ==> now == fetch_one(asked, v, block) || (!ok && now == asked),
    ensures
        now == fetched(held, v, next),
        ok ==> next + rest == done + blocks_from(hole, block, rest),
        went_through(held, now, v, done + blocks_from(hole, block, rest), false),
{
    let all = done + blocks_from(hole, block, rest);
    if hole {
        lemma_went_so_far(held, now, v, done, rest);
        assert(went_through(held, now, v, all, false)) by {
            lemma_went_part(held, now, v, all, rest.len() == 0);
        }
        done
    } else {
        let next = done.push(block);
        assert(next + rest =~= all);
        lemma_fetched_push(held, v, done, block);
        if now == fetch_one(asked, v, block) {
            lemma_went_so_far(held, now, v, next, rest);
            lemma_went_part(held, now, v, all, rest.len() == 0);
            next
        } else {
            lemma_went_so_far(held, now, v, done, seq![block] + rest);
            lemma_went_part(held, now, v, all, (seq![block] + rest).len() == 0);
            done
        }
    }
}

proof fn lemma_went_part(
    before: CacheView,
    after: CacheView,
    v: FsView,
    blocks: Seq<u32>,
    whole: bool,
)
    requires
        went_through(before, after, v, blocks, whole),
    ensures
        went_through(before, after, v, blocks, false),
{
    let k = choose|k: int|
        0 <= k <= blocks.len() && after == #[trigger] fetched(before, v, blocks.take(k)) && (whole
            ==> k == blocks.len());
    assert(after == fetched(before, v, blocks.take(k)));
}

/// Every read through a cache leaves its budget as it is, and the cache
/// within it.
pub proof fn lemma_went_within(
    before: CacheView,
    after: CacheView,
    v: FsView,
    blocks: Seq<u32>,
    whole: bool,
)
    requires
        within_budget(before),
        went_through(before, after, v, blocks, whole),
    ensures
        within_budget(after),
        after.budget == before.budget,
{
    let k = choose|k: int|
        0 <= k <= blocks.len() && after == #[trigger] fetched(before, v, blocks.take(k)) && (whole
            ==> k == blocks.len());
    lemma_fetched_within(before, v, blocks.take(k));
}

/// A block that was just used or added stays what it is when it is used
/// again.
pub proof fn lemma_fetched_is_last(c: CacheView, v: FsView, block: u32)
    requires
        within_budget(c),
        c.hit(block) is Some || v.block_bytes(block) is Ok,
    ensures
        fetch_one(c, v, block).touch(block) == fetch_one(c, v, block),
{
    if c.hit(block) is Some {
        lemma_touch_puts_last(c.blocks, block);
        lemma_touch_last(touched(c.blocks, block), block);
    } else {
        let bytes = v.block_bytes(block)->Ok_0;
        lemma_store_distinct(c.blocks, block, bytes, c.budget);
        lemma_touch_last(stored(c.blocks, block, bytes, c.budget), block);
    }
}

/// A block that was read serves the next request for it without being
/// decoded again, where caching is not disabled.
pub proof fn lemma_read_block_is_kept(c: CacheView, v: FsView, block: u32)
    requires
        within_budget(c),
        c.budget > 0,
        c.hit(block) is Some || v.block_bytes(block) is Ok,
    ensures
        fetch_one(c, v, block).hit(block) is Some,
{
    if c.hit(block) is Some {
        lemma_touch_resident(c.blocks, block);
    } else {
        lemma_store_resident(c.blocks, block, v.block_bytes(block)->Ok_0, c.budget);
    }
}

/// The bytes that blocks hold together, each counted as often as it is
/// asked for.
pub open spec fn sum_of_blocks(v: FsView, blocks: Seq<u32>) -> nat
    decreases blocks.len(),
{
    if blocks.len() == 0 {
        0
    } else {
        sum_of_blocks(v, blocks.drop_last()) + match v.block_bytes(blocks.last()) {
            Ok(bytes) => bytes.len(),
            Err(_) => 0,
        }
    }
}

proof fn lemma_store_keeps_others(c: CacheView, block: u32, bytes: Seq<u8>, other: u32)
    requires
        distinct(c.blocks),
        position(c.blocks, block) is None,
        total(c.blocks) + bytes.len() <= c.budget,
        position(c.blocks, other) is Some,
    ensures
        position(c.store(block, bytes).blocks, other) is Some,
        total(c.store(block, bytes).blocks) == total(c.blocks) + bytes.len(),
{
    let after = stored(c.blocks, block, bytes, c.budget);
    assert(after == c.blocks.push((block, bytes)));
    lemma_total_push(c.blocks, (block, bytes));
    lemma_position(c.blocks, other, 0);
    lemma_position(after, other, 0);
    let k = position(c.blocks, other)->Some_0;
    assert(after[k as int] == c.blocks[k as int]);
}

proof fn lemma_store_adds(c: CacheView, block: u32, bytes: Seq<u8>)
    requires
        distinct(c.blocks),
        position(c.blocks, block) is None,
        total(c.blocks) + bytes.len() <= c.budget,
    ensures
        total(c.store(block, bytes).blocks) == total(c.blocks) + bytes.len(),
{
    let after = stored(c.blocks, block, bytes, c.budget);
    assert(after == c.blocks.push((block, bytes)));
    lemma_total_push(c.blocks, (block, bytes));
}

proof fn lemma_touch_keeps_others(c: CacheView, block: u32, other: u32)
    requires
        distinct(c.blocks),
        position(c.blocks, other) is Some,
    ensures
        position(c.touch(block).blocks, other) is Some,
{
    lemma_position(c.blocks, other, 0);
    lemma_position(c.blocks, block, 0);
    let after = touched(c.blocks, block);
    lemma_position(after, other, 0);
    if let Some(i) = position(c.blocks, block) {
        let k = position(c.blocks, other)->Some_0;
        if k < i {
            assert(after[k as int] == c.blocks[k as int]);
        } else if k > i {
            assert(after[k - 1] == c.blocks[k as int]);
        } else {
            assert(after[after.len() - 1] == c.blocks[i as int]);
        }
    }
}

/// Blocks that fit a cache's budget beside what it holds are all kept: a
/// second read of them decodes nothing.
pub proof fn lemma_fitting_blocks_are_kept(c: CacheView, v: FsView, blocks: Seq<u32>)
    requires
        within_budget(c),
        c.budget > 0,
        total(c.blocks) + sum_of_blocks(v, blocks) <= c.budget,
        forall|i: int| 0 <= i < blocks.len() ==> v.block_bytes(#[trigger] blocks[i]) is Ok,
    ensures
        total(fetched(c, v, blocks).blocks) <= total(c.blocks) + sum_of_blocks(v, blocks),
        forall|i: int|
            0 <= i < blocks.len() ==> fetched(c, v, blocks).hit(#[trigger] blocks[i]) is Some,
    decreases blocks.len(),
{
    if blocks.len() > 0 {
        let front = blocks.drop_last();
        let block = blocks.last();
        assert(block == blocks[blocks.len() - 1]);
        assert forall|i: int| 0 <= i < front.len() implies v.block_bytes(
            #[trigger] front[i],
        ) is Ok by {
            assert(front[i] == blocks[i]);
        }
        lemma_fitting_blocks_are_kept(c, v, front);
        lemma_fetched_within(c, v, front);
        let now = fetched(c, v, front);
        let bytes = v.block_bytes(block)->Ok_0;
        lemma_read_block_is_kept(now, v, block);
        lemma_touch_keeps(now.blocks, block);
        if now.hit(block) is None {
            lemma_store_adds(now, block, bytes);
        }
        assert forall|i: int| 0 <= i < blocks.len() implies fetched(c, v, blocks).hit(
            #[trigger] blocks[i],
        ) is Some by {
            if i < front.len() {
                assert(front[i] == blocks[i]);
                assert(now.hit(front[i]) is Some);
                if now.hit(block) is Some {
                    lemma_touch_keeps_others(now, block, blocks[i]);
                } else {
                    lemma_store_keeps_others(now, block, bytes, blocks[i]);
                }
            }
        }
    }
}

} // verus!
