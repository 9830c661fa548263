use vstd::prelude::*;

use crate::block::{BlockHandle, DataBlock};
use crate::error::KvsError;
use crate::ss_table::SSTable;

verus! {

/// One cached decoded block, keyed by table generation and block offset.
pub struct CacheSlot {
    pub gen: u64,
    pub offset: u64,
    pub block: DataBlock,
}

/// A slot never contradicts table `t`: if it carries `t`'s generation, its
/// block is the one `t` locates at that offset.
pub open spec fn slot_ok(slot: CacheSlot, t: SSTable) -> bool {
    slot.gen == t.gen_id() ==> forall|b: int|
        0 <= b < t.index_view().len() && (#[trigger] t.index_view()[b]).handle.offset
            == slot.offset ==> slot.block@ == t.blocks_view()[b]
}

/// A sharded least-recently-used cache of decoded data blocks. Each shard is
/// ordered most-recent-first and evicts from its tail.
pub struct BlockCache {
    shards: Vec<Vec<CacheSlot>>,
    cap: usize,
}

/// The slot already sat somewhere in the cache's earlier shards.
pub open spec fn slot_in_old(slot: CacheSlot, old_shards: Seq<Vec<CacheSlot>>) -> bool {
    exists|sh: int, i: int|
        0 <= sh < old_shards.len() && 0 <= i < old_shards[sh]@.len() && slot
            == #[trigger] old_shards[sh]@[i]
}

/// A reordering whose slots all come from a consistent cache is consistent.
proof fn lemma_old_slots_consistent(
    prev: BlockCache,
    cur: BlockCache,
    old_shards: Seq<Vec<CacheSlot>>,
    t: SSTable,
)
    requires
        prev.shards@ == old_shards,
        prev.consistent_with(t),
        forall|sh: int, i: int|
            0 <= sh < cur.shards@.len() && 0 <= i < cur.shards@[sh]@.len() ==> slot_in_old(
                #[trigger] cur.shards@[sh]@[i],
                old_shards,
            ),
    ensures
        cur.consistent_with(t),
{
    assert forall|sh: int, i: int|
        0 <= sh < cur.shards@.len() && 0 <= i < cur.shards@[sh]@.len() implies slot_ok(
        #[trigger] cur.shards@[sh]@[i],
        t,
    ) by {
        let slot = cur.shards@[sh]@[i];
        assert(slot_in_old(slot, old_shards));
        let (sh0, i0) = choose|sh0: int, i0: int|
            0 <= sh0 < old_shards.len() && 0 <= i0 < old_shards[sh0]@.len() && slot
                == #[trigger] old_shards[sh0]@[i0];
        assert(slot_ok(prev.shards@[sh0]@[i0], t));
    }
}

/// Adding one slot that does not contradict `t` to a consistent cache keeps
/// it consistent.
proof fn lemma_new_slot_consistent(
    prev: BlockCache,
    cur: BlockCache,
    old_shards: Seq<Vec<CacheSlot>>,
    slot: CacheSlot,
    t: SSTable,
)
    requires
        prev.shards@ == old_shards,
        prev.consistent_with(t),
        slot_ok(slot, t),
        forall|sh: int, i: int|
            0 <= sh < cur.shards@.len() && 0 <= i < cur.shards@[sh]@.len() ==> slot_in_old(
                #[trigger] cur.shards@[sh]@[i],
                old_shards,
            ) || cur.shards@[sh]@[i] == slot,
    ensures
        cur.consistent_with(t),
{
    assert forall|sh: int, i: int|
        0 <= sh < cur.shards@.len() && 0 <= i < cur.shards@[sh]@.len() implies slot_ok(
        #[trigger] cur.shards@[sh]@[i],
        t,
    ) by {
        let s2 = cur.shards@[sh]@[i];
        if s2 != slot {
            assert(slot_in_old(s2, old_shards));
            let (sh0, i0) = choose|sh0: int, i0: int|
                0 <= sh0 < old_shards.len() && 0 <= i0 < old_shards[sh0]@.len() && s2
                    == #[trigger] old_shards[sh0]@[i0];
            assert(slot_ok(prev.shards@[sh0]@[i0], t));
        }
    }
}

impl BlockCache {
    pub closed spec fn wf(&self) -> bool {
        &&& 1 <= self.shards@.len() <= 4096
        &&& self.cap >= 1
    }

    /// The cache never contradicts table `t`.
    pub closed spec fn consistent_with(&self, t: SSTable) -> bool {
        forall|sh: int, i: int|
            0 <= sh < self.shards@.len() && 0 <= i < self.shards@[sh]@.len() ==> slot_ok(
                #[trigger] self.shards@[sh]@[i],
                t,
            )
    }

    /// A cache sized by a per-shard entry budget, split over `nshards`
    /// independent shards.
    pub fn new(cap: usize, nshards: usize) -> (r: BlockCache)
        requires
            cap >= 1,
            1 <= nshards <= 4096,
        ensures
            r.wf(),
            forall|t: SSTable| r.consistent_with(t),
    {
        let mut shards: Vec<Vec<CacheSlot>> = Vec::new();
        let mut i: usize = 0;
        while i < nshards
            invariant
                i <= nshards,
                shards@.len() == i as int,
                forall|sh: int| 0 <= sh < i ==> (#[trigger] shards@[sh])@.len() == 0,
            decreases nshards - i,
        {
            shards.push(Vec::new());
            i += 1;
        }
        BlockCache { shards, cap }
    }

    /// Returns the block `handle` locates in `t`: from the cache on a hit,
    /// through `t` itself on a miss, inserting the loaded block and evicting
    /// the least recently used one past the shard's budget.
    pub fn get_or_load(&mut self, t: &SSTable, handle: &BlockHandle) -> (r: Result<
        DataBlock,
        KvsError,
    >)
        requires
            t.wf(),
            old(self).wf(),
            old(self).consistent_with(*t),
        ensures
            final(self).wf(),
            final(self).consistent_with(*t),
            forall|t2: SSTable|
                old(self).consistent_with(t2) && t2.gen_id() != t.gen_id()
                    ==> final(self).consistent_with(t2),
            forall|b: int|
                0 <= b < t.index_view().len() && (#[trigger] t.index_view()[b]).handle == *handle
                    ==> (r matches Ok(db) && db@ == t.blocks_view()[b]),
            r is Err ==> r == Err::<DataBlock, KvsError>(KvsError::DataEmpty) && (forall|b: int|
                0 <= b < t.index_view().len() ==> (#[trigger] t.index_view()[b]).handle != *handle),
    {
        let g = t.gen();
        let ns = self.shards.len() as u64;
        let sh = (((g % ns) + (handle.offset % ns)) % ns) as usize;
        let ghost old_shards = self.shards@;
        let mut shard = self.shards.remove(sh);
        let ghost s0 = shard@;
        proof {
            assert(old_shards[sh as int]@ == s0);
        }
        let n = shard.len();
        let mut i: usize = 0;
        let mut hit: Option<usize> = Option::None;
        while i < n
            invariant_except_break
                shard@ == s0,
                n == s0.len(),
                i <= n,
                hit is None,
            ensures
                shard@ == s0,
                hit matches Some(pos) ==> 0 <= pos < n && s0[pos as int].gen == g
                    && s0[pos as int].offset == handle.offset,
            decreases n - i,
        {
            if shard[i].gen == g && shard[i].offset == handle.offset {
                hit = Some(i);
                break ;
            }
            i += 1;
        }
        match hit {
            Some(pos) => {
                let slot = shard.remove(pos);
                let result = slot.block.duplicate();
                shard.insert(0, slot);
                self.shards.insert(sh, shard);
                proof {
                    let cur = self.shards@;
                    assert forall|s2: int, i2: int|
                        0 <= s2 < cur.len() && 0 <= i2 < cur[s2]@.len() implies slot_in_old(
                        #[trigger] cur[s2]@[i2],
                        old_shards,
                    ) by {
                        if s2 == sh as int {
                            if i2 == 0 {
                                assert(cur[s2]@[i2] == s0[pos as int]);
                            } else if i2 <= pos {
                                assert(cur[s2]@[i2] == s0[i2 - 1]);
                            } else {
                                assert(cur[s2]@[i2] == s0[i2 as int]);
                            }
                            assert(old_shards[s2]@ == s0);
                        } else if s2 < sh as int {
                            assert(cur[s2] == old_shards[s2]);
                            assert(cur[s2]@[i2] == old_shards[s2]@[i2]);
                        } else {
                            assert(cur[s2] == old_shards.remove(sh as int)[s2 - 1]);
                            assert(cur[s2] == old_shards[s2]);
                            assert(cur[s2]@[i2] == old_shards[s2]@[i2]);
                        }
                    }
                    lemma_old_slots_consistent(*old(self), *self, old_shards, *t);
                    assert forall|t2: SSTable|
                        old(self).consistent_with(t2) && t2.gen_id()
                            != t.gen_id() implies self.consistent_with(t2) by {
                        lemma_old_slots_consistent(*old(self), *self, old_shards, t2);
                    }
                    assert(slot_ok(s0[pos as int], *t)) by {
                        assert(old_shards[sh as int]@[pos as int] == s0[pos as int]);
                    }
                    assert forall|b: int|
                        0 <= b < t.index_view().len() && (#[trigger] t.index_view()[b]).handle
                            == *handle implies result@ == t.blocks_view()[b] by {
                        assert(t.index_view()[b].handle.offset == s0[pos as int].offset);
                    }
                }
                Ok(result)
            },
            Option::None => {
                let loaded = t.get_data_block(handle);
                match loaded {
                    Err(e) => {
                        self.shards.insert(sh, shard);
                        proof {
                            assert(self.shards@ =~= old_shards);
                        }
                        Err(e)
                    },
                    Ok(db) => {
                        let copy = db.duplicate();
                        let slot = CacheSlot { gen: g, offset: handle.offset, block: db };
                        let ghost slotg = slot;
                        shard.insert(0, slot);
                        if shard.len() > self.cap {
                            shard.pop();
                        }
                        self.shards.insert(sh, shard);
                        proof {
                            let cur = self.shards@;
                            assert(slot_ok(slotg, *t)) by {
                                assert forall|b: int|
                                    0 <= b < t.index_view().len() && (
                                    #[trigger] t.index_view()[b]).handle.offset
                                        == slotg.offset implies slotg.block@
                                        == t.blocks_view()[b] by {
                                    assert(t.index_view()[b].handle.offset == b);
                                    assert forall|b2: int|
                                        0 <= b2 < t.index_view().len() && (
                                        #[trigger] t.index_view()[b2]).handle == *handle implies b2
                                        == b by {
                                        assert(t.index_view()[b2].handle.offset == b2);
                                    }
                                }
                            }
                            assert forall|s2: int, i2: int|
                                0 <= s2 < cur.len() && 0 <= i2 < cur[s2]@.len() implies slot_in_old(
                                #[trigger] cur[s2]@[i2],
                                old_shards,
                            ) || cur[s2]@[i2] == slotg by {
                                if s2 == sh as int {
                                    if i2 == 0 {
                                        assert(cur[s2]@[i2] == slotg);
                                    } else {
                                        assert(cur[s2]@[i2] == s0[i2 - 1]);
                                        assert(old_shards[s2]@ == s0);
                                    }
                                } else if s2 < sh as int {
                                    assert(cur[s2] == old_shards[s2]);
                                    assert(cur[s2]@[i2] == old_shards[s2]@[i2]);
                                } else {
                                    assert(cur[s2] == old_shards.remove(sh as int)[s2 - 1]);
                                    assert(cur[s2] == old_shards[s2]);
                                    assert(cur[s2]@[i2] == old_shards[s2]@[i2]);
                                }
                            }
                            lemma_new_slot_consistent(*old(self), *self, old_shards, slotg, *t);
                            assert forall|t2: SSTable|
                                old(self).consistent_with(t2) && t2.gen_id()
                                    != t.gen_id() implies self.consistent_with(t2) by {
                                assert(slot_ok(slotg, t2));
                                lemma_new_slot_consistent(*old(self), *self, old_shards, slotg, t2);
                            }
                        }
                        Ok(copy)
                    },
                }
            },
        }
    }
}

} // verus!
