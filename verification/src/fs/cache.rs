//! Bounded LRU cache of decoded blocks.

use std::sync::Arc;

use crate::error::Error;
use vstd::prelude::*;

verus! {

/// Cached blocks, least-recently-used first.
pub type Blocks = Seq<(u32, Seq<u8>)>;

/// The bytes that cached blocks hold together.
pub open spec fn total(blocks: Blocks) -> nat
    decreases blocks.len(),
{
    if blocks.len() == 0 {
        0
    } else {
        blocks[0].1.len() + total(blocks.skip(1))
    }
}

/// Where a block stands from index `i` on.
pub open spec fn position_from(blocks: Blocks, block: u32, i: nat) -> Option<nat>
    decreases blocks.len() - i,
{
    if i >= blocks.len() {
        None
    } else if blocks[i as int].0 == block {
        Some(i)
    } else {
        position_from(blocks, block, i + 1)
    }
}

/// Where a block stands.
pub open spec fn position(blocks: Blocks, block: u32) -> Option<nat> {
    position_from(blocks, block, 0)
}

/// Whether every block is held once.
pub open spec fn distinct(blocks: Blocks) -> bool {
    forall|i: int, j: int|
        0 <= i < j < blocks.len() ==> (#[trigger] blocks[i]).0 != (#[trigger] blocks[j]).0
}

/// The blocks without one of them.
pub open spec fn without(blocks: Blocks, block: u32) -> Blocks {
    match position(blocks, block) {
        Some(i) => blocks.remove(i as int),
        None => blocks,
    }
}

/// The blocks after one of them was used: it becomes the most recent.
pub open spec fn touched(blocks: Blocks, block: u32) -> Blocks {
    match position(blocks, block) {
        Some(i) => blocks.remove(i as int).push(blocks[i as int]),
        None => blocks,
    }
}

/// The blocks after the least recently used ones were dropped until
/// `need` more bytes fit the budget, or none is left.
pub open spec fn trimmed(blocks: Blocks, need: nat, budget: nat) -> Blocks
    decreases blocks.len(),
{
    if blocks.len() == 0 || total(blocks) + need <= budget {
        blocks
    } else {
        trimmed(blocks.skip(1), need, budget)
    }
}

/// The blocks after one was added, as the most recent.
pub open spec fn stored(blocks: Blocks, block: u32, bytes: Seq<u8>, budget: nat) -> Blocks {
    trimmed(without(blocks, block), bytes.len(), budget).push((block, bytes))
}

/// The position of a block is that of the first entry with its index.
pub proof fn lemma_position(blocks: Blocks, block: u32, i: nat)
    ensures
        match position_from(blocks, block, i) {
            Some(k) => i <= k < blocks.len() && blocks[k as int].0 == block && forall|j: int|
                i <= j < k ==> (#[trigger] blocks[j]).0 != block,
            None => forall|j: int| i <= j < blocks.len() ==> (#[trigger] blocks[j]).0 != block,
        },
    decreases blocks.len() - i,
{
    if i < blocks.len() {
        lemma_position(blocks, block, i + 1);
    }
}

pub(crate) proof fn lemma_total_push(blocks: Blocks, one: (u32, Seq<u8>))
    ensures
        total(blocks.push(one)) == total(blocks) + one.1.len(),
    decreases blocks.len(),
{
    if blocks.len() > 0 {
        assert(blocks.push(one).skip(1) =~= blocks.skip(1).push(one));
        lemma_total_push(blocks.skip(1), one);
    } else {
        assert(blocks.push(one).skip(1).len() == 0);
        assert(blocks.push(one)[0] == one);
        assert(total(blocks.push(one).skip(1)) == 0);
    }
}

proof fn lemma_total_remove(blocks: Blocks, i: int)
    requires
        0 <= i < blocks.len(),
    ensures
        total(blocks) == total(blocks.remove(i)) + blocks[i].1.len(),
    decreases blocks.len(),
{
    if i == 0 {
        assert(blocks.remove(0) =~= blocks.skip(1));
    } else {
        assert(blocks.remove(i).skip(1) =~= blocks.skip(1).remove(i - 1));
        lemma_total_remove(blocks.skip(1), i - 1);
    }
}

proof fn lemma_trimmed(blocks: Blocks, need: nat, budget: nat)
    ensures
        trimmed(blocks, need, budget).len() == 0 || total(trimmed(blocks, need, budget)) + need
            <= budget,
        exists|k: int|
            #![trigger blocks.skip(k)]
            0 <= k <= blocks.len() && trimmed(blocks, need, budget) == blocks.skip(k) && (k > 0
                ==> total(blocks.skip(k - 1)) + need > budget),
    decreases blocks.len(),
{
    assert(blocks.skip(0) =~= blocks);
    if !(blocks.len() == 0 || total(blocks) + need <= budget) {
        let rest = blocks.skip(1);
        lemma_trimmed(rest, need, budget);
        let k = choose|k: int|
            #![trigger rest.skip(k)]
            0 <= k <= rest.len() && trimmed(rest, need, budget) == rest.skip(k) && (k > 0
                ==> total(rest.skip(k - 1)) + need > budget);
        assert(blocks.skip(k + 1) =~= rest.skip(k));
        if k > 0 {
            assert(blocks.skip(k) =~= rest.skip(k - 1));
        } else {
            assert(blocks.skip(k + 1 - 1) =~= blocks);
        }
        assert(trimmed(blocks, need, budget) == blocks.skip(k + 1));
    }
}

/// A cache holds at most its budget once a block was added, unless that
/// block alone is larger and is the only one left.
pub proof fn lemma_store_within_budget(blocks: Blocks, block: u32, bytes: Seq<u8>, budget: nat)
    ensures
        ({
            let after = stored(blocks, block, bytes, budget);
            &&& total(after) <= budget || after == seq![(block, bytes)]
            &&& after.last() == (block, bytes)
        }),
{
    let base = trimmed(without(blocks, block), bytes.len(), budget);
    lemma_trimmed(without(blocks, block), bytes.len(), budget);
    lemma_total_push(base, (block, bytes));
    if base.len() == 0 {
        assert(base.push((block, bytes)) =~= seq![(block, bytes)]);
    }
}

/// Adding a block drops only the least recently used others, and no more
/// of them than it must: what stays is a tail of what was there.
pub proof fn lemma_store_evicts_least_recent(
    blocks: Blocks,
    block: u32,
    bytes: Seq<u8>,
    budget: nat,
)
    ensures
        exists|k: int|
            #![trigger without(blocks, block).skip(k)]
            0 <= k <= without(blocks, block).len() && stored(blocks, block, bytes, budget)
                == without(blocks, block).skip(k).push((block, bytes)) && (k > 0 ==> total(
                without(blocks, block).skip(k - 1),
            ) + bytes.len() > budget),
{
    let base = without(blocks, block);
    lemma_trimmed(base, bytes.len(), budget);
    let k = choose|k: int|
        #![trigger base.skip(k)]
        0 <= k <= base.len() && trimmed(base, bytes.len(), budget) == base.skip(k) && (k > 0
            ==> total(base.skip(k - 1)) + bytes.len() > budget);
    assert(stored(blocks, block, bytes, budget) == base.skip(k).push((block, bytes)));
}

/// Adding a block keeps every block held once, the new one included.
pub proof fn lemma_store_distinct(blocks: Blocks, block: u32, bytes: Seq<u8>, budget: nat)
    requires
        distinct(blocks),
    ensures
        distinct(stored(blocks, block, bytes, budget)),
        position(stored(blocks, block, bytes, budget), block) == Some(
            (stored(blocks, block, bytes, budget).len() - 1) as nat,
        ),
{
    let base = without(blocks, block);
    lemma_position(blocks, block, 0);
    lemma_trimmed(base, bytes.len(), budget);
    let k = choose|k: int|
        #![trigger base.skip(k)]
        0 <= k <= base.len() && trimmed(base, bytes.len(), budget) == base.skip(k) && (k > 0
            ==> total(base.skip(k - 1)) + bytes.len() > budget);
    assert(forall|j: int| 0 <= j < base.len() ==> (#[trigger] base[j]).0 != block) by {
        if let Some(i) = position(blocks, block) {
            assert forall|j: int| 0 <= j < base.len() implies (#[trigger] base[j]).0 != block by {
                if j < i {
                    assert(base[j] == blocks[j]);
                } else {
                    assert(base[j] == blocks[j + 1]);
                    assert(blocks[i as int].0 != blocks[j + 1].0);
                }
            }
        }
    }
    let after = stored(blocks, block, bytes, budget);
    assert(distinct(base));
    assert forall|i: int, j: int| 0 <= i < j < after.len() implies (#[trigger] after[i]).0 != (
    #[trigger] after[j]).0 by {
        assert(after[i] == base[k + i]);
        if j < after.len() - 1 {
            assert(after[j] == base[k + j]);
        }
    }
    lemma_position(after, block, 0);
    assert(after[after.len() - 1].0 == block);
}

/// Using a block keeps the same blocks, each held once.
pub proof fn lemma_touch_keeps(blocks: Blocks, block: u32)
    requires
        distinct(blocks),
    ensures
        distinct(touched(blocks, block)),
        total(touched(blocks, block)) == total(blocks),
        touched(blocks, block).to_multiset() == blocks.to_multiset(),
{
    broadcast use vstd::seq_lib::group_to_multiset_ensures;

    lemma_position(blocks, block, 0);
    if let Some(i) = position(blocks, block) {
        lemma_total_remove(blocks, i as int);
        lemma_total_push(blocks.remove(i as int), blocks[i as int]);
        let after = touched(blocks, block);
        assert forall|a: int, b: int| 0 <= a < b < after.len() implies (#[trigger] after[a]).0 != (
        #[trigger] after[b]).0 by {
            let x = if a < i {
                a
            } else {
                a + 1
            };
            assert(after[a] == blocks[x]);
            let y = if b == after.len() - 1 {
                i as int
            } else if b < i {
                b
            } else {
                b + 1
            };
            assert(after[b] == blocks[y]);
        }
        assert(blocks.remove(i as int).to_multiset() =~= blocks.to_multiset().remove(
            blocks[i as int],
        ));
        assert(after.to_multiset() =~= blocks.to_multiset());
    }
}

/// A block that was used is still held.
pub proof fn lemma_touch_resident(blocks: Blocks, block: u32)
    requires
        distinct(blocks),
    ensures
        match position(blocks, block) {
            Some(i) => position(touched(blocks, block), block) matches Some(k) && touched(
                blocks,
                block,
            )[k as int] == blocks[i as int],
            None => position(touched(blocks, block), block) is None,
        },
{
    lemma_position(blocks, block, 0);
    lemma_touch_keeps(blocks, block);
    lemma_position(touched(blocks, block), block, 0);
    if let Some(i) = position(blocks, block) {
        let after = touched(blocks, block);
        assert(after[after.len() - 1] == blocks[i as int]);
        let k = position(after, block)->Some_0;
        if k != after.len() - 1 {
            assert(after[k as int].0 != after[after.len() - 1].0);
        }
    }
}

/// A block that was added is held with its bytes.
pub proof fn lemma_store_resident(blocks: Blocks, block: u32, bytes: Seq<u8>, budget: nat)
    requires
        distinct(blocks),
    ensures
        position(stored(blocks, block, bytes, budget), block) matches Some(k) && stored(
            blocks,
            block,
            bytes,
            budget,
        )[k as int] == (block, bytes),
{
    lemma_store_distinct(blocks, block, bytes, budget);
    lemma_store_within_budget(blocks, block, bytes, budget);
}

/// The blocks behind the entries of a cache.
pub open spec fn blocks_of(entries: Seq<(u32, Arc<Vec<u8>>)>) -> Blocks {
    entries.map_values(|e: (u32, Arc<Vec<u8>>)| (e.0, e.1@))
}

/// `Arc::clone`: another handle on the same bytes.
#[verifier::external_body]
pub(crate) fn share(bytes: &Arc<Vec<u8>>) -> (r: Arc<Vec<u8>>)
    ensures
        r == *bytes,
{
    Arc::clone(bytes)
}

/// Resident blocks, least-recently-used first, and the bytes they hold.
pub struct Inner {
    resident: usize,
    entries: Vec<(u32, Arc<Vec<u8>>)>,
}

impl View for Inner {
    type V = Blocks;

    closed spec fn view(&self) -> Blocks {
        blocks_of(self.entries@)
    }
}

impl Inner {
    /// The count of resident bytes is exact, and no block is held twice.
    #[verifier::type_invariant]
    closed spec fn wf(&self) -> bool {
        self.resident == total(self@) && distinct(self@)
    }

    /// No block at all.
    pub fn new() -> (r: Self)
        ensures
            r@ == Blocks::empty(),
    {
        let entries: Vec<(u32, Arc<Vec<u8>>)> = Vec::new();
        assert(blocks_of(entries@) =~= Blocks::empty());
        Inner { resident: 0, entries }
    }

    /// Number of resident blocks.
    pub fn len(&self) -> (r: usize)
        ensures
            r == self@.len(),
    {
        self.entries.len()
    }

    /// Bytes the resident blocks hold.
    pub fn resident(&self) -> (r: usize)
        ensures
            r == total(self@),
    {
        proof {
            use_type_invariant(self);
        }
        self.resident
    }

    fn position(&self, block: u32) -> (r: Option<usize>)
        ensures
            match r {
                Some(i) => position(self@, block) == Some(i as nat) && i < self@.len(),
                None => position(self@, block) is None,
            },
    {
        let mut i: usize = 0;
        while i < self.entries.len()
            invariant
                i <= self.entries@.len() == self@.len(),
                position(self@, block) == position_from(self@, block, i as nat),
            decreases self.entries@.len() - i,
        {
            if self.entries[i].0 == block {
                return Some(i);
            }
            i = i + 1;
        }
        None
    }

    /// Mark a block as the most recently used.
    pub fn touch(&mut self, block: u32)
        ensures
            final(self)@ == touched(old(self)@, block),
    {
        proof {
            use_type_invariant(&*self);
            lemma_touch_keeps(self@, block);
        }
        if let Some(pos) = self.position(block) {
            let ghost before = self@;
            let mut taken = Inner::new();
            std::mem::swap(self, &mut taken);
            proof {
                use_type_invariant(&taken);
            }
            let resident: usize = taken.resident;
            let mut entries: Vec<(u32, Arc<Vec<u8>>)> = taken.entries;
            let one: (u32, Arc<Vec<u8>>) = entries.remove(pos);
            entries.push(one);
            assert(blocks_of(entries@) =~= touched(before, block));
            *self = Inner { resident, entries };
        }
    }

    /// A handle on a resident block.
    pub fn get(&self, block: u32) -> (r: Option<Arc<Vec<u8>>>)
        ensures
            match r {
                Some(bytes) => position(self@, block) matches Some(i) && self@[i as int].1
                    == bytes@,
                None => position(self@, block) is None,
            },
    {
        match self.position(block) {
            Some(pos) => Some(share(&self.entries[pos].1)),
            None => None,
        }
    }

    /// The bytes of a resident block.
    pub fn bytes(&self, block: u32) -> (r: Option<&[u8]>)
        ensures
            match r {
                Some(bytes) => position(self@, block) matches Some(i) && self@[i as int].1
                    == bytes@,
                None => position(self@, block) is None,
            },
    {
        match self.position(block) {
            Some(pos) => Some(self.entries[pos].1.as_slice()),
            None => None,
        }
    }

    /// Add a block as the most recent one, dropping the least recently
    /// used others until it fits `budget` bytes or none is left.
    pub fn store(&mut self, block: u32, bytes: Arc<Vec<u8>>, budget: usize)
        ensures
            final(self)@ == stored(old(self)@, block, bytes@, budget as nat),
    {
        proof {
            use_type_invariant(&*self);
            lemma_store_distinct(self@, block, bytes@, budget as nat);
        }
        let ghost before = self@;
        let found: Option<usize> = self.position(block);
        let mut taken = Inner::new();
        std::mem::swap(self, &mut taken);
        proof {
            use_type_invariant(&taken);
        }
        let mut resident: usize = taken.resident;
        let mut entries: Vec<(u32, Arc<Vec<u8>>)> = taken.entries;
        if let Some(pos) = found {
            proof {
                lemma_total_remove(before, pos as int);
            }
            let one: (u32, Arc<Vec<u8>>) = entries.remove(pos);
            resident = resident - one.1.len();
            assert(blocks_of(entries@) =~= before.remove(pos as int));
        }
        let ghost base = without(before, block);
        let need: usize = bytes.len();
        // Stops once the cache is empty, so a block larger than the
        // whole budget still lands and the read can be served.
        while entries.len() > 0 && (need > budget || resident > budget - need)
            invariant
                need == bytes@.len(),
                resident == total(blocks_of(entries@)),
                trimmed(base, need as nat, budget as nat) == trimmed(
                    blocks_of(entries@),
                    need as nat,
                    budget as nat,
                ),
            decreases entries@.len(),
        {
            let ghost now = blocks_of(entries@);
            proof {
                lemma_total_remove(now, 0);
            }
            let one: (u32, Arc<Vec<u8>>) = entries.remove(0);
            assert(blocks_of(entries@) =~= now.remove(0));
            assert(now.skip(1) =~= now.remove(0));
            resident = resident - one.1.len();
        }
        proof {
            lemma_total_push(blocks_of(entries@), (block, bytes@));
        }
        let ghost last = blocks_of(entries@);
        resident = resident + need;
        entries.push((block, bytes));
        assert(blocks_of(entries@) =~= last.push((block, bytes@)));
        *self = Inner { resident, entries };
    }
}

impl Default for Inner {
    fn default() -> (r: Self)
        ensures
            r@ == Blocks::empty(),
    {
        Inner::new()
    }
}

/// What a cache holds, and the blocks being decoded for it.
#[verifier::ext_equal]
pub struct CacheView {
    pub budget: nat,
    pub blocks: Blocks,
    pub loading: Set<u32>,
}

impl CacheView {
    /// The bytes that a request for a block is served from. A budget of 0
    /// disables caching, so no request is.
    pub open spec fn hit(self, block: u32) -> Option<Seq<u8>> {
        if self.budget == 0 {
            None
        } else {
            self.resident(block)
        }
    }

    /// The bytes of a resident block.
    pub open spec fn resident(self, block: u32) -> Option<Seq<u8>> {
        match position(self.blocks, block) {
            Some(i) => Some(self.blocks[i as int].1),
            None => None,
        }
    }

    /// After a block was used.
    pub open spec fn touch(self, block: u32) -> CacheView {
        CacheView { blocks: touched(self.blocks, block), ..self }
    }

    /// After a block was added.
    pub open spec fn store(self, block: u32, bytes: Seq<u8>) -> CacheView {
        CacheView { blocks: stored(self.blocks, block, bytes, self.budget), ..self }
    }

    /// After a block's decode ended.
    pub open spec fn unmark(self, block: u32) -> CacheView {
        CacheView { loading: self.loading.remove(block), ..self }
    }

    /// How a request for a block on behalf of one of several readers goes
    /// on, and the cache after it.
    pub open spec fn begun(self, block: u32) -> (FetchView, CacheView) {
        match self.hit(block) {
            Some(bytes) => (FetchView::Hit(bytes), self.touch(block)),
            None => if self.loading.contains(block) {
                (FetchView::Wait, self)
            } else {
                (FetchView::Load, CacheView { loading: self.loading.insert(block), ..self })
            },
        }
    }

    /// After something happened to the cache.
    pub open spec fn after(self, event: CacheEvent) -> CacheView {
        match event {
            CacheEvent::Begin(block) => self.begun(block).1,
            CacheEvent::Publish(block, bytes) => self.unmark(block).store(block, bytes),
            CacheEvent::Abort(block) => self.unmark(block),
            CacheEvent::Clear => CacheView { blocks: Blocks::empty(), ..self },
        }
    }

    /// After several things happened, in order.
    pub open spec fn run(self, events: Seq<CacheEvent>) -> CacheView
        decreases events.len(),
    {
        if events.len() == 0 {
            self
        } else {
            self.run(events.drop_last()).after(events.last())
        }
    }
}

/// Whether a cache holds every block once, and at most its budget unless
/// one block alone is larger and is the only one held.
pub open spec fn within_budget(c: CacheView) -> bool {
    distinct(c.blocks) && (total(c.blocks) <= c.budget || c.blocks.len() == 1)
}

/// What happens to a cache that several readers share, whichever of them
/// does it.
pub enum CacheEvent {
    /// A reader asks for a block.
    Begin(u32),
    /// A decode of a block succeeds.
    Publish(u32, Seq<u8>),
    /// A decode of a block fails.
    Abort(u32),
    /// The blocks are dropped.
    Clear,
}

impl CacheEvent {
    /// Whether the event ends a decode of a block.
    pub open spec fn ends(self, block: u32) -> bool {
        match self {
            CacheEvent::Publish(b, _) => b == block,
            CacheEvent::Abort(b) => b == block,
            _ => false,
        }
    }
}

/// A block is decoded by one reader at a time: whatever the readers of a
/// cache do while one of them decodes a block, none of them is told to
/// decode it too.
pub proof fn lemma_one_decoder_at_a_time(c: CacheView, block: u32, events: Seq<CacheEvent>)
    requires
        c.loading.contains(block),
        forall|i: int| 0 <= i < events.len() ==> !(#[trigger] events[i]).ends(block),
    ensures
        c.run(events).loading.contains(block),
        c.run(events).begun(block).0 !is Load,
    decreases events.len(),
{
    if events.len() > 0 {
        let before = events.drop_last();
        assert forall|i: int| 0 <= i < before.len() implies !(#[trigger] before[i]).ends(block) by {
            assert(before[i] == events[i]);
        }
        lemma_one_decoder_at_a_time(c, block, before);
        assert(!events[events.len() - 1].ends(block));
    }
}

/// A decode of one block does not keep another from being decoded
/// alongside: a request for a block that is neither held nor being decoded
/// is told to decode it.
pub proof fn lemma_blocks_decode_alongside(c: CacheView, block: u32, other: u32)
    requires
        other != block,
        c.hit(other) is None,
        !c.loading.contains(other),
    ensures
        c.begun(block).1.begun(other).0 is Load,
{
    lemma_position(c.blocks, other, 0);
    if c.begun(block).0 is Hit {
        let after = touched(c.blocks, block);
        lemma_position(c.blocks, block, 0);
        lemma_position(after, other, 0);
        let i = position(c.blocks, block)->Some_0 as int;
        assert forall|j: int| 0 <= j < after.len() implies (#[trigger] after[j]).0 != other by {
            let k = if j == after.len() - 1 {
                i
            } else if j < i {
                j
            } else {
                j + 1
            };
            assert(after[j] == c.blocks[k]);
        }
    }
}

/// A block that was decoded serves the next request for it, where caching
/// is not disabled.
pub proof fn lemma_published_is_served(c: CacheView, block: u32, bytes: Seq<u8>)
    requires
        distinct(c.blocks),
        c.budget > 0,
    ensures
        c.after(CacheEvent::Publish(block, bytes)).begun(block).0 == FetchView::Hit(bytes),
{
    lemma_store_resident(c.blocks, block, bytes, c.budget);
}

/// A decode that failed is not remembered: the next request for the block
/// tries again.
pub proof fn lemma_failure_is_not_kept(c: CacheView, block: u32)
    requires
        c.hit(block) is None,
    ensures
        c.after(CacheEvent::Abort(block)).begun(block).0 is Load,
{
}

/// Whatever its readers do, a cache holds every block once, and at most
/// its budget unless one block alone is larger and is the only one held.
pub proof fn lemma_budget_holds_in_any_order(c: CacheView, events: Seq<CacheEvent>)
    requires
        within_budget(c),
    ensures
        within_budget(c.run(events)),
        c.run(events).budget == c.budget,
    decreases events.len(),
{
    if events.len() > 0 {
        lemma_budget_holds_in_any_order(c, events.drop_last());
        let now = c.run(events.drop_last());
        match events.last() {
            CacheEvent::Begin(block) => {
                lemma_touch_within(now, block);
            },
            CacheEvent::Publish(block, bytes) => {
                lemma_store_within(now.unmark(block), block, bytes);
            },
            _ => {},
        }
    }
}

/// Using a block keeps a cache within its budget.
pub proof fn lemma_touch_within(c: CacheView, block: u32)
    requires
        within_budget(c),
    ensures
        within_budget(c.touch(block)),
{
    lemma_touch_keeps(c.blocks, block);
    lemma_position(c.blocks, block, 0);
}

/// Adding a block keeps a cache within its budget.
pub proof fn lemma_store_within(c: CacheView, block: u32, bytes: Seq<u8>)
    requires
        within_budget(c),
    ensures
        within_budget(c.store(block, bytes)),
{
    lemma_store_distinct(c.blocks, block, bytes, c.budget);
    lemma_store_within_budget(c.blocks, block, bytes, c.budget);
}

/// Using the most recent block again changes nothing.
pub proof fn lemma_touch_last(blocks: Blocks, block: u32)
    requires
        position(blocks, block) == Some((blocks.len() - 1) as nat),
        blocks.len() > 0,
    ensures
        touched(blocks, block) == blocks,
{
    let i = blocks.len() - 1;
    assert(blocks.remove(i).push(blocks[i]) =~= blocks);
}

/// A block that was used is the most recent one.
pub proof fn lemma_touch_puts_last(blocks: Blocks, block: u32)
    requires
        distinct(blocks),
        position(blocks, block) is Some,
    ensures
        touched(blocks, block).len() > 0,
        position(touched(blocks, block), block) == Some(
            (touched(blocks, block).len() - 1) as nat,
        ),
{
    lemma_touch_resident(blocks, block);
    lemma_touch_keeps(blocks, block);
    lemma_position(blocks, block, 0);
    let after = touched(blocks, block);
    lemma_position(after, block, 0);
    let k = position(after, block)->Some_0 as int;
    assert(after[after.len() - 1].0 == block);
    if k != after.len() - 1 {
        assert(after[k].0 != after[after.len() - 1].0);
    }
}

/// What a [`Fetch`] says.
pub enum FetchView {
    Hit(Seq<u8>),
    Wait,
    Load,
}

/// How a request for a block goes on.
pub enum Fetch {
    /// The block is resident.
    Hit(Arc<Vec<u8>>),
    /// Someone is decoding the block: wait for that to end, then ask again.
    Wait,
    /// Nobody is: decode it, then publish or abort it.
    Load,
}

impl View for Fetch {
    type V = FetchView;

    open spec fn view(&self) -> FetchView {
        match *self {
            Fetch::Hit(bytes) => FetchView::Hit(bytes@),
            Fetch::Wait => FetchView::Wait,
            Fetch::Load => FetchView::Load,
        }
    }
}

/// Bounded LRU cache of decoded block payloads, keyed by block index.
///
/// Streaming consumers hand one of these to the reader so a single
/// decoded block can satisfy multiple successive reads instead of paying
/// decompression for every call. The cache holds at most `budget` bytes;
/// on overflow the least-recently-used entry is evicted.
///
/// Several readers may share a cache behind a lock, with
/// [`BlockCache::begin`], [`BlockCache::publish`] and
/// [`BlockCache::abort`]: a block is decoded once however many of them
/// ask for it at the same time, and decoding one block does not stop
/// another block being decoded alongside it.
pub struct BlockCache {
    budget: usize,
    inner: Inner,
    loading: Vec<u32>,
}

impl View for BlockCache {
    type V = CacheView;

    closed spec fn view(&self) -> CacheView {
        CacheView {
            budget: self.budget as nat,
            blocks: self.inner@,
            loading: self.loading@.to_set(),
        }
    }
}

impl BlockCache {
    /// The blocks are within the budget.
    #[verifier::type_invariant]
    pub closed spec fn wf(&self) -> bool {
        within_budget(self@)
    }

    /// What holds of every cache.
    pub proof fn lemma_wf(&self)
        requires
            self.wf(),
        ensures
            within_budget(self@),
    {
    }

    /// Build a cache holding at most `budget` bytes of decoded blocks.
    ///
    /// A budget of 0 disables caching, so every read decompresses. When
    /// a single block is larger than the whole budget it becomes the
    /// only resident entry, because a read has to be served from
    /// somewhere.
    pub fn new(budget: usize) -> (r: Self)
        ensures
            r@ == (CacheView {
                budget: budget as nat,
                blocks: Blocks::empty(),
                loading: Set::empty(),
            }),
    {
        let loading: Vec<u32> = Vec::new();
        assert(loading@.to_set() =~= Set::<u32>::empty());
        assert(total(Blocks::empty()) == 0);
        BlockCache { budget, inner: Inner::new(), loading }
    }

    /// Byte budget this cache was built with.
    pub fn budget(&self) -> (r: usize)
        ensures
            r == self@.budget,
    {
        self.budget
    }

    /// Decoded bytes currently held.
    ///
    /// Counts published blocks only. A decode in flight holds a buffer
    /// of its own that is not resident until it is published, so peak
    /// memory can exceed the budget by one block per decoding thread.
    pub fn resident_bytes(&self) -> (r: usize)
        ensures
            r == total(self@.blocks),
            r <= self@.budget || self@.blocks.len() == 1,
    {
        proof {
            use_type_invariant(self);
        }
        self.inner.resident()
    }

    /// Drop every cached block.
    ///
    /// Blocks a reader still holds stay alive until that reader is
    /// done with them.
    pub fn clear(&mut self)
        ensures
            final(self)@ == (CacheView { blocks: Blocks::empty(), ..old(self)@ }),
    {
        assert(total(Blocks::empty()) == 0);
        self.inner = Inner::new();
    }

    /// The block that a request is served from, marked as used.
    pub fn cached(&mut self, block: u32) -> (r: Option<Arc<Vec<u8>>>)
        ensures
            match r {
                Some(bytes) => old(self)@.hit(block) == Some(bytes@) && final(self)@ == old(
                    self,
                )@.touch(block) && final(self)@.resident(block) == Some(bytes@),
                None => old(self)@.hit(block) is None && final(self)@ == old(self)@,
            },
    {
        proof {
            use_type_invariant(&self.inner);
            lemma_touch_resident(self.inner@, block);
        }
        if self.budget == 0 {
            return None;
        }
        match self.inner.get(block) {
            Some(bytes) => {
                self.mark_used(block);
                Some(bytes)
            },
            None => None,
        }
    }

    fn mark_used(&mut self, block: u32)
        ensures
            final(self)@ == old(self)@.touch(block),
    {
        proof {
            use_type_invariant(&*self);
            lemma_touch_within(self@, block);
        }
        let mut inner = Inner::new();
        assert(total(Blocks::empty()) == 0);
        std::mem::swap(&mut self.inner, &mut inner);
        inner.touch(block);
        self.inner = inner;
    }

    /// Add a decoded block.
    pub fn insert(&mut self, block: u32, bytes: Arc<Vec<u8>>)
        ensures
            final(self)@ == old(self)@.store(block, bytes@),
            final(self)@.resident(block) == Some(bytes@),
    {
        proof {
            use_type_invariant(&*self);
            lemma_store_resident(self@.blocks, block, bytes@, self@.budget);
            lemma_store_within(self@, block, bytes@);
        }
        let mut inner = Inner::new();
        assert(total(Blocks::empty()) == 0);
        std::mem::swap(&mut self.inner, &mut inner);
        inner.store(block, bytes, self.budget);
        self.inner = inner;
    }

    /// Return `block`, decoding it with `decode` if it is not cached. A
    /// decode that fails leaves the cache as it was.
    pub fn fetch<F>(&mut self, block: u32, decode: F) -> (r: Result<Arc<Vec<u8>>, Error>) where
        F: FnOnce() -> Result<Vec<u8>, Error>,

        requires
            decode.requires(()),
        ensures
            match old(self)@.hit(block) {
                Some(bytes) => r matches Ok(b) && b@ == bytes && final(self)@ == old(self)@.touch(
                    block,
                ),
                None => match r {
                    Ok(b) => decode.ensures((), Ok(*b)) && final(self)@ == old(self)@.store(
                        block,
                        b@,
                    ),
                    Err(e) => decode.ensures((), Err(e)) && final(self)@ == old(self)@,
                },
            },
    {
        if let Some(bytes) = self.cached(block) {
            return Ok(bytes);
        }
        match decode() {
            Ok(v) => {
                let bytes: Arc<Vec<u8>> = Arc::new(v);
                self.insert(block, share(&bytes));
                Ok(bytes)
            },
            Err(e) => Err(e),
        }
    }

    /// Borrow a resident block, marking it as used. The bytes outlive no
    /// other use of the cache.
    pub fn resident(&mut self, block: u32) -> (r: Option<&[u8]>)
        ensures
            match r {
                Some(bytes) => old(self)@.resident(block) == Some(bytes@),
                None => old(self)@.resident(block) is None,
            },
            final(self)@ == old(self)@.touch(block),
    {
        proof {
            use_type_invariant(&self.inner);
            lemma_touch_resident(self.inner@, block);
        }
        self.mark_used(block);
        self.inner.bytes(block)
    }

    fn loading_position(&self, block: u32) -> (r: Option<usize>)
        ensures
            match r {
                Some(i) => i < self.loading@.len() && self.loading@[i as int] == block,
                None => !self.loading@.contains(block),
            },
    {
        let mut i: usize = 0;
        while i < self.loading.len()
            invariant
                i <= self.loading@.len(),
                forall|j: int| 0 <= j < i ==> self.loading@[j] != block,
            decreases self.loading@.len() - i,
        {
            if self.loading[i] == block {
                return Some(i);
            }
            i = i + 1;
        }
        None
    }

    /// Ask for a block on behalf of one of several readers.
    pub fn begin(&mut self, block: u32) -> (r: Fetch)
        ensures
            (r@, final(self)@) == old(self)@.begun(block),
    {
        if let Some(bytes) = self.cached(block) {
            return Fetch::Hit(bytes);
        }
        if let Some(i) = self.loading_position(block) {
            assert(self.loading@.contains(block));
            return Fetch::Wait;
        }
        proof {
            use_type_invariant(&*self);
        }
        let ghost before = self.loading@;
        let mut loading: Vec<u32> = Vec::new();
        std::mem::swap(&mut self.loading, &mut loading);
        loading.push(block);
        self.loading = loading;
        assert(self.loading@.to_set() =~= before.to_set().insert(block)) by {
            assert forall|x: u32| self.loading@.contains(x) <==> before.contains(x) || x
                == block by {
                if before.contains(x) {
                    let i = before.index_of(x);
                    assert(self.loading@[i] == x);
                }
                assert(self.loading@[before.len() as int] == block);
            }
        }
        Fetch::Load
    }

    fn unmark(&mut self, block: u32)
        ensures
            final(self)@ == old(self)@.unmark(block),
    {
        let ghost want = self.loading@.to_set().remove(block);
        let mut kept: Vec<u32> = Vec::new();
        let mut i: usize = 0;
        while i < self.loading.len()
            invariant
                i <= self.loading@.len(),
                forall|x: u32| #[trigger]
                    kept@.contains(x) <==> x != block && self.loading@.take(i as int).contains(x),
            decreases self.loading@.len() - i,
        {
            let one: u32 = self.loading[i];
            let ghost before = kept@;
            let ghost seen = self.loading@.take(i as int);
            assert(self.loading@.take(i + 1) =~= seen.push(one));
            if one != block {
                kept.push(one);
            }
            assert forall|x: u32| #[trigger] kept@.contains(x) <==> x != block
                && self.loading@.take(i + 1).contains(x) by {
                lemma_push_contains(seen, one, x);
                lemma_push_contains(before, one, x);
                assert(before.contains(x) <==> x != block && seen.contains(x));
            }
            i = i + 1;
        }
        assert(self.loading@.take(i as int) =~= self.loading@);
        proof {
            use_type_invariant(&*self);
        }
        self.loading = kept;
        assert(self.loading@.to_set() =~= want);
    }

    /// A decode that [`BlockCache::begin`] asked for succeeded.
    pub fn publish(&mut self, block: u32, bytes: Arc<Vec<u8>>)
        ensures
            final(self)@ == old(self)@.after(CacheEvent::Publish(block, bytes@)),
    {
        self.unmark(block);
        self.insert(block, bytes);
    }

    /// A decode that [`BlockCache::begin`] asked for failed. The block is
    /// left absent rather than recorded as failed: a later reader is free
    /// to try the decode again.
    pub fn abort(&mut self, block: u32)
        ensures
            final(self)@ == old(self)@.after(CacheEvent::Abort(block)),
    {
        self.unmark(block);
    }
}

proof fn lemma_push_contains(s: Seq<u32>, one: u32, x: u32)
    ensures
        s.push(one).contains(x) <==> s.contains(x) || x == one,
{
    if s.contains(x) {
        let i = s.index_of(x);
        assert(s.push(one)[i] == x);
    }
    assert(s.push(one)[s.len() as int] == one);
    if s.push(one).contains(x) && x != one {
        let i = s.push(one).index_of(x);
        assert(s[i] == x);
    }
}

} // verus!
