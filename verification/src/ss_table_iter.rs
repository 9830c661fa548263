use vstd::prelude::*;

use crate::block::{
    first_geq, first_gt, index_keys_of, keys_of, lemma_first_geq_props, lemma_first_geq_unique,
    lemma_first_gt_props, lemma_first_gt_unique, BlockHandle, BlockIter, IndexIter, Seek,
};
use crate::cache::BlockCache;
use crate::error::KvsError;
use crate::mem_table::{entries_sorted, KvModel, KvPair};
use crate::order::{lemma_lex_asym, lemma_lex_irrefl, lemma_lex_trans, lex_le, lex_lt};
use crate::ss_table::{
    blocks_wf, flat_blocks, lemma_flat_index, lemma_flat_len, lemma_flat_sorted,
    lemma_pre_len_bounds, lemma_pre_len_nonneg_from, lemma_pre_len_succ, pre_len, SSTable,
};

verus! {

/// Every entry of the flattened stream comes from one block, at the position
/// its block prefix determines.
pub proof fn lemma_flat_decompose(bs: Seq<Seq<KvModel>>, j: int)
    requires
        0 <= j < flat_blocks(bs).len(),
    ensures
        exists|b: int, x: int|
            0 <= b < bs.len() && 0 <= x < bs[b].len() && j == pre_len(bs, b) + x && flat_blocks(
                bs,
            )[j] == #[trigger] bs[b][x],
    decreases bs.len(),
{
    if j < bs[0].len() {
        assert(flat_blocks(bs)[j] == bs[0][j]);
        assert(pre_len(bs, 0) == 0);
        assert(0 <= 0 < bs.len() && 0 <= j < bs[0].len() && j == pre_len(bs, 0) + j && flat_blocks(
            bs,
        )[j] == bs[0][j]);
    } else {
        let j2 = j - bs[0].len();
        lemma_flat_decompose(bs.skip(1), j2);
        let (b2, x) = choose|b2: int, x: int|
            0 <= b2 < bs.skip(1).len() && 0 <= x < bs.skip(1)[b2].len() && j2 == pre_len(
                bs.skip(1),
                b2,
            ) + x && flat_blocks(bs.skip(1))[j2] == #[trigger] bs.skip(1)[b2][x];
        assert(bs.skip(1)[b2] == bs[b2 + 1]);
        assert(pre_len(bs, b2 + 1) == bs[0].len() + pre_len(bs.skip(1), b2));
        assert(flat_blocks(bs)[j] == flat_blocks(bs.skip(1))[j2]);
        assert(0 <= b2 + 1 < bs.len() && 0 <= x < bs[b2 + 1].len() && j == pre_len(bs, b2 + 1) + x
            && flat_blocks(bs)[j] == bs[b2 + 1][x]);
    }
}

/// When every block before `b` has its greatest key below `k`, every entry
/// before block `b` has its key below `k`.
pub proof fn lemma_prefix_keys_lt(bs: Seq<Seq<KvModel>>, b: int, k: Seq<u8>)
    requires
        blocks_wf(bs),
        0 <= b <= bs.len(),
        forall|bj: int| 0 <= bj < b ==> lex_lt((#[trigger] bs[bj]).last().key, k),
    ensures
        forall|j: int|
            0 <= j < pre_len(bs, b) ==> lex_lt((#[trigger] flat_blocks(bs)[j]).key, k),
{
    lemma_flat_len(bs);
    lemma_pre_len_bounds(bs, b);
    assert forall|j: int| 0 <= j < pre_len(bs, b) implies lex_lt(
        (#[trigger] flat_blocks(bs)[j]).key,
        k,
    ) by {
        lemma_flat_decompose(bs, j);
        let (bj, x) = choose|bj: int, x: int|
            0 <= bj < bs.len() && 0 <= x < bs[bj].len() && j == pre_len(bs, bj) + x && flat_blocks(
                bs,
            )[j] == #[trigger] bs[bj][x];
        assert(bj < b) by {
            if bj >= b {
                lemma_pre_len_nonneg_from(bs, b, bj);
                lemma_pre_len_succ(bs, bj);
            }
        }
        assert(lex_lt(bs[bj].last().key, k));
        if x < bs[bj].len() - 1 {
            assert(lex_lt(bs[bj][x].key, bs[bj].last().key));
            lemma_lex_trans(bs[bj][x].key, bs[bj].last().key, k);
        }
    }
}

/// A bidirectional, seekable cursor over one sorted table, composed of an
/// index iterator selecting the active data block and a data iterator walking
/// inside it.
pub struct SSTableIter<'a> {
    table: &'a SSTable,
    index_iter: IndexIter,
    data_iter: BlockIter,
}

impl<'a> SSTableIter<'a> {
    pub closed spec fn table_ref(&self) -> SSTable {
        *self.table
    }

    /// All entries of the underlying table, in ascending key order.
    pub open spec fn entries(&self) -> Seq<KvModel> {
        self.table_ref().entries()
    }

    pub closed spec fn ip(&self) -> int {
        self.index_iter.pos()
    }

    pub closed spec fn dp(&self) -> int {
        self.data_iter.pos()
    }

    /// The cursor's position in the flattened entry stream: `-1` before the
    /// first entry, the entry count after the last.
    pub open spec fn cur(&self) -> int {
        let bs = self.table_ref().blocks_view();
        if self.ip() < 0 {
            -1
        } else if self.ip() >= bs.len() {
            self.entries().len() as int
        } else {
            pre_len(bs, self.ip()) + self.dp()
        }
    }

    pub closed spec fn wf(&self) -> bool {
        let bs = self.table_ref().blocks_view();
        let ip = self.index_iter.pos();
        let dp = self.data_iter.pos();
        &&& self.table_ref().wf()
        &&& self.index_iter.wf()
        &&& self.data_iter.wf()
        &&& self.index_iter.entries() == self.table_ref().index_view()
        &&& -1 <= ip <= bs.len()
        &&& (ip == -1 ==> self.data_iter.entries() == bs[0] && dp == -1)
        &&& (0 <= ip < bs.len() ==> self.data_iter.entries() == bs[ip] && (0 <= dp < bs[ip].len()
            || (ip == 0 && dp == -1) || (ip == bs.len() - 1 && dp == bs[ip].len())))
        &&& (ip == bs.len() ==> self.data_iter.entries() == bs[bs.len() - 1] && dp == bs[bs.len()
            - 1].len())
    }

    /// An initialized data iterator over the block `handle` locates, fetched
    /// through the cache; `DataEmpty` when no index entry carries the locator.
    pub fn data_iter_init(table: &SSTable, cache: &mut BlockCache, handle: &BlockHandle) -> (r:
        Result<BlockIter, KvsError>)
        requires
            table.wf(),
            old(cache).wf(),
            old(cache).consistent_with(*table),
        ensures
            final(cache).wf(),
            final(cache).consistent_with(*table),
            forall|t2: SSTable|
                old(cache).consistent_with(t2) && t2.gen_id() != table.gen_id()
                    ==> final(cache).consistent_with(t2),
            (exists|b: int|
                0 <= b < table.index_view().len() && (#[trigger] table.index_view()[b]).handle
                    == *handle) ==> (r matches Ok(it) && it.wf() && it.pos() == -1),
            forall|b: int|
                0 <= b < table.index_view().len() && (#[trigger] table.index_view()[b]).handle
                    == *handle ==> (r matches Ok(it) && it.entries() == table.blocks_view()[b]),
            (forall|b: int|
                0 <= b < table.index_view().len() ==> (#[trigger] table.index_view()[b]).handle
                    != *handle) ==> r == Err::<BlockIter, KvsError>(KvsError::DataEmpty),
    {
        if !table.has_handle(handle) {
            return Err(KvsError::DataEmpty);
        }
        let loaded = cache.get_or_load(table, handle);
        match loaded {
            Ok(db) => {
                proof {
                    let b0 = choose|b0: int|
                        0 <= b0 < table.index_view().len() && (
                        #[trigger] table.index_view()[b0]).handle == *handle;
                    assert(db@ == table.blocks_view()[b0]);
                }
                Ok(BlockIter::new(db))
            },
            Err(_) => {
                proof {
                    assert(false);
                }
                Err(KvsError::DataEmpty)
            },
        }
    }

    /// Re-initializes the data iterator over the block `handle` locates and
    /// seeks inside it.
    fn data_iter_seek(&mut self, seek: &Seek, handle: &BlockHandle, cache: &mut BlockCache) -> (r:
        Result<KvPair, KvsError>)
        requires
            old(self).table_ref().wf(),
            old(cache).wf(),
            old(cache).consistent_with(old(self).table_ref()),
            exists|b: int|
                0 <= b < old(self).table_ref().index_view().len() && (#[trigger] old(
                    self,
                ).table_ref().index_view()[b]).handle == *handle,
        ensures
            final(self).table_ref() == old(self).table_ref(),
            final(self).index_iter == old(self).index_iter,
            final(cache).wf(),
            final(cache).consistent_with(old(self).table_ref()),
            forall|t2: SSTable|
                old(cache).consistent_with(t2) && t2.gen_id() != old(self).table_ref().gen_id()
                    ==> final(cache).consistent_with(t2),
            final(self).data_iter.wf(),
            forall|b: int|
                0 <= b < old(self).table_ref().index_view().len() && (#[trigger] old(
                    self,
                ).table_ref().index_view()[b]).handle == *handle ==> final(self).data_iter.entries()
                    == old(self).table_ref().blocks_view()[b],
            ({
                let s = final(self).data_iter.entries();
                let n = s.len() as int;
                match seek {
                    Seek::First => (r matches Ok(e) && e@ == s[0] && final(self).data_iter.pos()
                        == 0),
                    Seek::Last => (r matches Ok(e) && e@ == s[n - 1] && final(self).data_iter.pos()
                        == n - 1),
                    Seek::Forward(k) => {
                        let m = first_geq(keys_of(s), k@);
                        &&& m < n ==> (r matches Ok(e) && e@ == s[m] && final(self).data_iter.pos()
                            == m)
                        &&& m == n ==> r == Err::<KvPair, KvsError>(KvsError::OutOfBounds)
                            && final(self).data_iter.pos() == n
                    },
                    Seek::Backward(k) => {
                        let m = first_gt(keys_of(s), k@) - 1;
                        &&& m >= 0 ==> (r matches Ok(e) && e@ == s[m] && final(self).data_iter.pos()
                            == m)
                        &&& m < 0 ==> r == Err::<KvPair, KvsError>(KvsError::OutOfBounds)
                            && final(self).data_iter.pos() == -1
                    },
                }
            }),
    {
        let it = Self::data_iter_init(self.table, cache, handle);
        match it {
            Ok(di) => {
                self.data_iter = di;
                self.data_iter.seek(seek)
            },
            Err(e) => {
                proof {
                    assert(false);
                }
                Err(e)
            },
        }
    }

    /// Opens a cursor positioned just before the table's first entry.
    pub fn new(table: &'a SSTable, cache: &mut BlockCache) -> (r: Result<
        SSTableIter<'a>,
        KvsError,
    >)
        requires
            table.wf(),
            old(cache).wf(),
            old(cache).consistent_with(*table),
        ensures
            final(cache).wf(),
            final(cache).consistent_with(*table),
            forall|t2: SSTable|
                old(cache).consistent_with(t2) && t2.gen_id() != table.gen_id()
                    ==> final(cache).consistent_with(t2),
            r matches Ok(it) && it.wf() && it.table_ref() == *table && it.cur() == -1,
    {
        let mut index_iter = IndexIter::new(table.get_index_block());
        let first = index_iter.next_err();
        match first {
            Ok(ie) => {
                proof {
                    assert(table.index_view()[0].handle == ie@.handle);
                }
                let di = Self::data_iter_init(table, cache, &ie.handle);
                match di {
                    Ok(data_iter) => {
                        proof {
                            assert forall|b: int|
                                0 <= b < table.index_view().len() && (
                                #[trigger] table.index_view()[b]).handle == ie@.handle implies b
                                == 0 by {
                                assert(table.index_view()[b].handle.offset == b);
                                assert(table.index_view()[0].handle.offset == 0);
                            }
                        }
                        Ok(SSTableIter { table, index_iter, data_iter })
                    },
                    Err(e) => {
                        proof {
                            assert(false);
                        }
                        Err(e)
                    },
                }
            },
            Err(e) => {
                proof {
                    assert(false);
                }
                Err(e)
            },
        }
    }

    /// The number of entries in the underlying table.
    pub fn len(&self) -> (r: usize)
        requires
            self.wf(),
        ensures
            r == self.entries().len(),
    {
        self.table.len()
    }

    /// Whether the cursor designates a real entry: false once it has run off
    /// either end of the table.
    pub fn is_valid(&self) -> (r: bool)
        requires
            self.wf(),
        ensures
            r == (0 <= self.cur() < self.entries().len()),
    {
        proof {
            let bs = self.table_ref().blocks_view();
            lemma_flat_len(bs);
            if 0 <= self.ip() < bs.len() {
                lemma_pre_len_bounds(bs, self.ip());
                lemma_pre_len_succ(bs, self.ip());
                lemma_pre_len_nonneg_from(bs, self.ip() + 1, bs.len() as int);
            }
        }
        self.index_iter.is_valid() && self.data_iter.is_valid()
    }

    /// Advances to and returns the next entry in ascending key order;
    /// `OutOfBounds` once the table is exhausted forward.
    #[verifier::rlimit(100)]
    #[verifier::spinoff_prover]
    pub fn next_err(&mut self, cache: &mut BlockCache) -> (r: Result<KvPair, KvsError>)
        requires
            old(self).wf(),
            old(cache).wf(),
            old(cache).consistent_with(old(self).table_ref()),
        ensures
            final(self).wf(),
            final(self).table_ref() == old(self).table_ref(),
            final(cache).wf(),
            final(cache).consistent_with(old(self).table_ref()),
            forall|t2: SSTable|
                old(cache).consistent_with(t2) && t2.gen_id() != old(self).table_ref().gen_id()
                    ==> final(cache).consistent_with(t2),
            old(self).cur() < old(self).entries().len() - 1 ==> (r matches Ok(e) && e@ == old(
                self,
            ).entries()[old(self).cur() + 1] && final(self).cur() == old(self).cur() + 1),
            old(self).cur() >= old(self).entries().len() - 1 ==> r == Err::<KvPair, KvsError>(
                KvsError::OutOfBounds,
            ) && final(self).cur() == old(self).entries().len(),
    {
        let ghost bs = self.table_ref().blocks_view();
        proof {
            lemma_flat_len(bs);
            lemma_flat_sorted(bs);
        }
        if self.index_iter.before_first() {
            let _ = self.index_iter.next_err();
        }
        let ghost ip0 = self.ip();
        proof {
            if 0 <= ip0 < bs.len() {
                lemma_pre_len_bounds(bs, ip0);
                lemma_pre_len_succ(bs, ip0);
                lemma_pre_len_nonneg_from(bs, ip0 + 1, bs.len() as int);
            }
        }
        let step = self.data_iter.next_err();
        match step {
            Ok(e) => {
                proof {
                    lemma_flat_index(bs, ip0, self.dp());
                }
                Ok(e)
            },
            Err(_) => {
                let next_index = self.index_iter.next_err();
                match next_index {
                    Err(_) => {
                        proof {
                            lemma_pre_len_succ(bs, bs.len() - 1);
                        }
                        Err(KvsError::OutOfBounds)
                    },
                    Ok(ie) => {
                        proof {
                            assert(ie@ == self.table_ref().index_view()[ip0 + 1]);
                            assert(self.table_ref().index_view()[ip0 + 1].handle == ie@.handle);
                        }
                        let res = self.data_iter_seek(&Seek::First, &ie.handle, cache);
                        proof {
                            assert forall|b: int|
                                0 <= b < self.table_ref().index_view().len() && (
                                #[trigger] self.table_ref().index_view()[b]).handle
                                    == ie@.handle implies b == ip0 + 1 by {
                                assert(self.table_ref().index_view()[b].handle.offset == b);
                                assert(self.table_ref().index_view()[ip0 + 1].handle.offset == ip0
                                    + 1);
                            }
                            assert(self.data_iter.entries() == bs[ip0 + 1]);
                            lemma_pre_len_succ(bs, ip0);
                            lemma_pre_len_succ(bs, ip0 + 1);
                            lemma_pre_len_nonneg_from(bs, ip0 + 2, bs.len() as int);
                            lemma_flat_index(bs, ip0 + 1, 0);
                        }
                        res
                    },
                }
            },
        }
    }

    /// Advances to and returns the next entry in descending key order;
    /// `OutOfBounds` once the table is exhausted backward.
    #[verifier::rlimit(100)]
    #[verifier::spinoff_prover]
    pub fn prev_err(&mut self, cache: &mut BlockCache) -> (r: Result<KvPair, KvsError>)
        requires
            old(self).wf(),
            old(cache).wf(),
            old(cache).consistent_with(old(self).table_ref()),
        ensures
            final(self).wf(),
            final(self).table_ref() == old(self).table_ref(),
            final(cache).wf(),
            final(cache).consistent_with(old(self).table_ref()),
            forall|t2: SSTable|
                old(cache).consistent_with(t2) && t2.gen_id() != old(self).table_ref().gen_id()
                    ==> final(cache).consistent_with(t2),
            old(self).cur() > 0 ==> (r matches Ok(e) && e@ == old(self).entries()[old(self).cur()
                - 1] && final(self).cur() == old(self).cur() - 1),
            old(self).cur() <= 0 ==> r == Err::<KvPair, KvsError>(KvsError::OutOfBounds)
                && final(self).cur() == -1,
    {
        let ghost bs = self.table_ref().blocks_view();
        proof {
            lemma_flat_len(bs);
            lemma_flat_sorted(bs);
            lemma_pre_len_succ(bs, bs.len() - 1);
        }
        if self.index_iter.past_last() {
            let _ = self.index_iter.prev_err();
        }
        let ghost ip0 = self.ip();
        proof {
            if 0 <= ip0 < bs.len() {
                lemma_pre_len_bounds(bs, ip0);
                lemma_pre_len_succ(bs, ip0);
                lemma_pre_len_nonneg_from(bs, ip0 + 1, bs.len() as int);
            }
        }
        let step = self.data_iter.prev_err();
        match step {
            Ok(e) => {
                proof {
                    lemma_flat_index(bs, ip0, self.dp());
                }
                Ok(e)
            },
            Err(_) => {
                let prev_index = self.index_iter.prev_err();
                match prev_index {
                    Err(_) => Err(KvsError::OutOfBounds),
                    Ok(ie) => {
                        proof {
                            assert(ie@ == self.table_ref().index_view()[ip0 - 1]);
                        }
                        let res = self.data_iter_seek(&Seek::Last, &ie.handle, cache);
                        proof {
                            assert forall|b: int|
                                0 <= b < self.table_ref().index_view().len() && (
                                #[trigger] self.table_ref().index_view()[b]).handle
                                    == ie@.handle implies b == ip0 - 1 by {
                                assert(self.table_ref().index_view()[b].handle.offset == b);
                                assert(self.table_ref().index_view()[ip0 - 1].handle.offset == ip0
                                    - 1);
                            }
                            assert(self.data_iter.entries() == bs[ip0 - 1]);
                            lemma_pre_len_succ(bs, ip0 - 1);
                            lemma_pre_len_bounds(bs, ip0 - 1);
                            lemma_flat_index(bs, ip0 - 1, bs[ip0 - 1].len() - 1);
                        }
                        res
                    },
                }
            },
        }
    }

    /// Positions at the table's first entry.
    #[verifier::rlimit(100)]
    #[verifier::spinoff_prover]
    fn seek_to_first(&mut self, cache: &mut BlockCache) -> (r: Result<KvPair, KvsError>)
        requires
            old(self).wf(),
            old(cache).wf(),
            old(cache).consistent_with(old(self).table_ref()),
        ensures
            final(self).wf(),
            final(self).table_ref() == old(self).table_ref(),
            final(cache).wf(),
            final(cache).consistent_with(old(self).table_ref()),
            forall|t2: SSTable|
                old(cache).consistent_with(t2) && t2.gen_id() != old(self).table_ref().gen_id()
                    ==> final(cache).consistent_with(t2),
            r matches Ok(e) && e@ == old(self).entries()[0] && final(self).cur() == 0,
    {
        let ghost bs = self.table_ref().blocks_view();
        let ghost f = self.entries();
        let ghost iv = self.table_ref().index_view();
        let ghost nb = bs.len() as int;
        proof {
            lemma_flat_len(bs);
            lemma_flat_sorted(bs);
            assert(keys_of(f).len() == f.len());
            assert forall|x: int| 0 <= x < iv.len() implies #[trigger] index_keys_of(iv)[x] == iv[
                x
            ].key by {
            }
            assert forall|x: int| 0 <= x < f.len() implies #[trigger] keys_of(f)[x] == f[x].key by {
            }
        }
        let ie = self.index_iter.seek_first();
        proof {
            assert(iv[0].handle == ie@.handle);
            assert forall|b: int|
                0 <= b < iv.len() && (#[trigger] iv[b]).handle == ie@.handle implies b
                    == 0 by {
                assert(iv[b].handle.offset == b);
                assert(iv[0].handle.offset == 0);
            }
        }
        let res = self.data_iter_seek(&Seek::First, &ie.handle, cache);
        proof {
            lemma_flat_index(bs, 0, 0);
        }
        res
    }

    /// Positions at the table's last entry.
    #[verifier::rlimit(100)]
    #[verifier::spinoff_prover]
    fn seek_to_last(&mut self, cache: &mut BlockCache) -> (r: Result<KvPair, KvsError>)
        requires
            old(self).wf(),
            old(cache).wf(),
            old(cache).consistent_with(old(self).table_ref()),
        ensures
            final(self).wf(),
            final(self).table_ref() == old(self).table_ref(),
            final(cache).wf(),
            final(cache).consistent_with(old(self).table_ref()),
            forall|t2: SSTable|
                old(cache).consistent_with(t2) && t2.gen_id() != old(self).table_ref().gen_id()
                    ==> final(cache).consistent_with(t2),
            r matches Ok(e) && e@ == old(self).entries()[old(self).entries().len() - 1]
                && final(self).cur() == old(self).entries().len() - 1,
    {
        let ghost bs = self.table_ref().blocks_view();
        let ghost f = self.entries();
        let ghost iv = self.table_ref().index_view();
        let ghost nb = bs.len() as int;
        proof {
            lemma_flat_len(bs);
            lemma_flat_sorted(bs);
            assert(keys_of(f).len() == f.len());
            assert forall|x: int| 0 <= x < iv.len() implies #[trigger] index_keys_of(iv)[x] == iv[
                x
            ].key by {
            }
            assert forall|x: int| 0 <= x < f.len() implies #[trigger] keys_of(f)[x] == f[x].key by {
            }
        }
        let ie = self.index_iter.seek_last();
        proof {
            assert(iv[nb - 1].handle == ie@.handle);
            assert forall|b: int|
                0 <= b < iv.len() && (#[trigger] iv[b]).handle == ie@.handle implies b == nb
                    - 1 by {
                assert(iv[b].handle.offset == b);
                assert(iv[nb - 1].handle.offset == nb - 1);
            }
        }
        let res = self.data_iter_seek(&Seek::Last, &ie.handle, cache);
        proof {
            lemma_pre_len_succ(bs, nb - 1);
            lemma_pre_len_bounds(bs, nb - 1);
            lemma_flat_index(bs, nb - 1, bs[nb - 1].len() - 1);
        }
        res
    }

    /// Positions at the first entry whose key is at least `k`.
    #[verifier::rlimit(100)]
    #[verifier::spinoff_prover]
    fn seek_to_forward(&mut self, k: &Vec<u8>, cache: &mut BlockCache) -> (r: Result<
        KvPair,
        KvsError,
    >)
        requires
            old(self).wf(),
            old(cache).wf(),
            old(cache).consistent_with(old(self).table_ref()),
        ensures
            final(self).wf(),
            final(self).table_ref() == old(self).table_ref(),
            final(cache).wf(),
            final(cache).consistent_with(old(self).table_ref()),
            forall|t2: SSTable|
                old(cache).consistent_with(t2) && t2.gen_id() != old(self).table_ref().gen_id()
                    ==> final(cache).consistent_with(t2),
            ({
                let s = old(self).entries();
                let n = s.len() as int;
                let m = first_geq(keys_of(s), k@);
                &&& m < n ==> (r matches Ok(e) && e@ == s[m] && final(self).cur() == m)
                &&& m == n ==> r == Err::<KvPair, KvsError>(KvsError::OutOfBounds)
                    && final(self).cur() == n
            }),
    {
        let ghost bs = self.table_ref().blocks_view();
        let ghost f = self.entries();
        let ghost iv = self.table_ref().index_view();
        let ghost nb = bs.len() as int;
        proof {
            lemma_flat_len(bs);
            lemma_flat_sorted(bs);
            assert(keys_of(f).len() == f.len());
            assert forall|x: int| 0 <= x < iv.len() implies #[trigger] index_keys_of(iv)[x] == iv[
                x
            ].key by {
            }
            assert forall|x: int| 0 <= x < f.len() implies #[trigger] keys_of(f)[x] == f[x].key by {
            }
        }
        proof {
            lemma_first_geq_props(index_keys_of(iv), k@);
        }
        let step = self.index_iter.seek_forward(k);
        match step {
            Ok(ie) => {
                let ghost b = first_geq(index_keys_of(iv), k@);
                proof {
                    assert(ie@ == iv[b]);
                    assert(0 <= b < iv.len());
                    assert(iv[b].handle == ie@.handle);
                    assert(self.table_ref().index_view()[b].handle == ie@.handle);
                    assert forall|b2: int|
                        0 <= b2 < iv.len() && (#[trigger] iv[b2]).handle
                            == ie@.handle implies b2 == b by {
                        assert(iv[b2].handle.offset == b2);
                        assert(iv[b].handle.offset == b);
                    }
                }
                let res = self.data_iter_seek(&Seek::Forward(k.clone()), &ie.handle, cache);
                proof {
                    assert(self.data_iter.entries() == bs[b]);
                    let blen = bs[b].len() as int;
                    let mb = first_geq(keys_of(bs[b]), k@);
                    lemma_first_geq_props(keys_of(bs[b]), k@);
                    assert forall|x: int| 0 <= x < blen implies #[trigger] keys_of(
                        bs[b],
                    )[x] == bs[b][x].key by {
                    }
                    assert(mb < blen) by {
                        if mb == blen {
                            assert(lex_lt(keys_of(bs[b])[blen - 1], k@));
                            assert(bs[b][blen - 1] == bs[b].last());
                            assert(lex_le(k@, iv[b].key));
                            assert(iv[b].key == bs[b].last().key);
                            lemma_lex_asym(bs[b].last().key, k@);
                            lemma_lex_irrefl(k@);
                        }
                    }
                    assert forall|bj: int| 0 <= bj < b implies lex_lt(
                        (#[trigger] bs[bj]).last().key,
                        k@,
                    ) by {
                        assert(lex_lt(index_keys_of(iv)[bj], k@));
                        assert(iv[bj].key == bs[bj].last().key);
                    }
                    lemma_prefix_keys_lt(bs, b, k@);
                    lemma_pre_len_succ(bs, b);
                    lemma_pre_len_bounds(bs, b);
                    lemma_flat_index(bs, b, mb);
                    let gm = pre_len(bs, b) + mb;
                    assert forall|j: int| 0 <= j < gm implies lex_lt(
                        #[trigger] keys_of(f)[j],
                        k@,
                    ) by {
                        if j < pre_len(bs, b) {
                            assert(lex_lt(f[j].key, k@));
                        } else {
                            lemma_flat_index(bs, b, j - pre_len(bs, b));
                            assert(f[j] == bs[b][j - pre_len(bs, b)]);
                            assert(lex_lt(keys_of(bs[b])[j - pre_len(bs, b)], k@));
                        }
                    }
                    assert(keys_of(f)[gm] == bs[b][mb].key);
                    assert(lex_le(k@, keys_of(f)[gm]));
                    lemma_first_geq_unique(keys_of(f), k@, gm);
                }
                res
            },
            Err(_) => {
                proof {
                    assert forall|bj: int| 0 <= bj < nb implies lex_lt(
                        (#[trigger] bs[bj]).last().key,
                        k@,
                    ) by {
                        assert(lex_lt(index_keys_of(iv)[bj], k@));
                        assert(iv[bj].key == bs[bj].last().key);
                    }
                    lemma_prefix_keys_lt(bs, nb, k@);
                    assert forall|j: int| 0 <= j < f.len() implies lex_lt(
                        #[trigger] keys_of(f)[j],
                        k@,
                    ) by {
                        assert(lex_lt(f[j].key, k@));
                    }
                    lemma_first_geq_unique(keys_of(f), k@, f.len() as int);
                }
                let ie = self.index_iter.seek_last();
                proof {
                    assert(iv[nb - 1].handle == ie@.handle);
                    assert(self.table_ref().index_view()[nb - 1].handle == ie@.handle);
                    assert forall|b2: int|
                        0 <= b2 < iv.len() && (#[trigger] iv[b2]).handle
                            == ie@.handle implies b2 == nb - 1 by {
                        assert(iv[b2].handle.offset == b2);
                        assert(iv[nb - 1].handle.offset == nb - 1);
                    }
                }
                let res = self.data_iter_seek(&Seek::Forward(k.clone()), &ie.handle, cache);
                proof {
                    assert(self.data_iter.entries() == bs[nb - 1]);
                    let blen = bs[nb - 1].len() as int;
                    lemma_first_geq_props(keys_of(bs[nb - 1]), k@);
                    lemma_pre_len_succ(bs, nb - 1);
                    lemma_pre_len_bounds(bs, nb - 1);
                    assert forall|x: int| 0 <= x < blen implies #[trigger] keys_of(
                        bs[nb - 1],
                    )[x] == bs[nb - 1][x].key by {
                    }
                    assert forall|x: int| 0 <= x < blen implies lex_lt(
                        #[trigger] keys_of(bs[nb - 1])[x],
                        k@,
                    ) by {
                        lemma_flat_index(bs, nb - 1, x);
                        assert(bs[nb - 1][x] == f[pre_len(bs, nb - 1) + x]);
                        assert(lex_lt(keys_of(f)[pre_len(bs, nb - 1) + x], k@));
                    }
                    lemma_first_geq_unique(keys_of(bs[nb - 1]), k@, blen);
                }
                res
            },
        }
    }

    /// Positions at the last entry whose key is at most `k`.
    #[verifier::rlimit(100)]
    #[verifier::spinoff_prover]
    fn seek_to_backward(&mut self, k: &Vec<u8>, cache: &mut BlockCache) -> (r: Result<
        KvPair,
        KvsError,
    >)
        requires
            old(self).wf(),
            old(cache).wf(),
            old(cache).consistent_with(old(self).table_ref()),
        ensures
            final(self).wf(),
            final(self).table_ref() == old(self).table_ref(),
            final(cache).wf(),
            final(cache).consistent_with(old(self).table_ref()),
            forall|t2: SSTable|
                old(cache).consistent_with(t2) && t2.gen_id() != old(self).table_ref().gen_id()
                    ==> final(cache).consistent_with(t2),
            ({
                let s = old(self).entries();
                let m = first_gt(keys_of(s), k@) - 1;
                &&& m >= 0 ==> (r matches Ok(e) && e@ == s[m] && final(self).cur() == m)
                &&& m < 0 ==> r == Err::<KvPair, KvsError>(KvsError::OutOfBounds)
                    && final(self).cur() == -1
            }),
    {
        let ghost bs = self.table_ref().blocks_view();
        let ghost f = self.entries();
        let ghost iv = self.table_ref().index_view();
        let ghost nb = bs.len() as int;
        proof {
            lemma_flat_len(bs);
            lemma_flat_sorted(bs);
            assert(keys_of(f).len() == f.len());
            assert forall|x: int| 0 <= x < iv.len() implies #[trigger] index_keys_of(iv)[x] == iv[
                x
            ].key by {
            }
            assert forall|x: int| 0 <= x < f.len() implies #[trigger] keys_of(f)[x] == f[x].key by {
            }
        }
        proof {
            lemma_first_geq_props(index_keys_of(iv), k@);
        }
        let step = self.index_iter.seek_forward(k);
        match step {
            Ok(ie) => {
                let ghost b = first_geq(index_keys_of(iv), k@);
                proof {
                    assert(ie@ == iv[b]);
                    assert(0 <= b < iv.len());
                    assert(iv[b].handle == ie@.handle);
                    assert(self.table_ref().index_view()[b].handle == ie@.handle);
                    assert forall|b2: int|
                        0 <= b2 < iv.len() && (#[trigger] iv[b2]).handle
                            == ie@.handle implies b2 == b by {
                        assert(iv[b2].handle.offset == b2);
                        assert(iv[b].handle.offset == b);
                    }
                    assert forall|bj: int| 0 <= bj < b implies lex_lt(
                        (#[trigger] bs[bj]).last().key,
                        k@,
                    ) by {
                        assert(lex_lt(index_keys_of(iv)[bj], k@));
                        assert(iv[bj].key == bs[bj].last().key);
                    }
                    lemma_prefix_keys_lt(bs, b, k@);
                    lemma_pre_len_succ(bs, b);
                    lemma_pre_len_bounds(bs, b);
                }
                let res = self.data_iter_seek(&Seek::Backward(k.clone()), &ie.handle, cache);
                match res {
                    Ok(e) => {
                        proof {
                            assert(self.data_iter.entries() == bs[b]);
                            let blen = bs[b].len() as int;
                            let fb = first_gt(keys_of(bs[b]), k@);
                            lemma_first_gt_props(keys_of(bs[b]), k@);
                            assert forall|x: int| 0 <= x < blen implies #[trigger] keys_of(
                                bs[b],
                            )[x] == bs[b][x].key by {
                            }
                            assert(fb >= 1);
                            let gm = pre_len(bs, b) + fb;
                            assert forall|j: int| 0 <= j < gm implies lex_le(
                                #[trigger] keys_of(f)[j],
                                k@,
                            ) by {
                                if j < pre_len(bs, b) {
                                    assert(lex_lt(f[j].key, k@));
                                } else {
                                    lemma_flat_index(bs, b, j - pre_len(bs, b));
                                    assert(f[j] == bs[b][j - pre_len(bs, b)]);
                                    assert(lex_le(keys_of(bs[b])[j - pre_len(bs, b)], k@));
                                }
                            }
                            if gm < f.len() {
                                if fb < blen {
                                    lemma_flat_index(bs, b, fb);
                                    assert(keys_of(f)[gm] == bs[b][fb].key);
                                    assert(lex_lt(k@, keys_of(f)[gm]));
                                } else {
                                    assert(b < nb - 1);
                                    lemma_pre_len_succ(bs, b + 1);
                                    lemma_flat_index(bs, b + 1, 0);
                                    assert(keys_of(f)[gm] == bs[b + 1][0].key);
                                    assert(lex_le(k@, iv[b].key));
                                    assert(iv[b].key == bs[b].last().key);
                                    assert(lex_lt(bs[b].last().key, bs[b + 1][0].key));
                                    if k@ != bs[b].last().key {
                                        lemma_lex_trans(
                                            k@,
                                            bs[b].last().key,
                                            bs[b + 1][0].key,
                                        );
                                    }
                                }
                            }
                            lemma_pre_len_succ(bs, b);
                            lemma_pre_len_bounds(bs, b + 1);
                            assert(keys_of(f).len() == f.len());
                            lemma_first_gt_unique(keys_of(f), k@, gm);
                            lemma_flat_index(bs, b, fb - 1);
                        }
                        Ok(e)
                    },
                    Err(_) => {
                        proof {
                            assert(self.data_iter.entries() == bs[b]);
                            lemma_first_gt_props(keys_of(bs[b]), k@);
                            assert(keys_of(bs[b])[0] == bs[b][0].key);
                            assert(lex_lt(k@, bs[b][0].key));
                            let gm = pre_len(bs, b);
                            assert forall|j: int| 0 <= j < gm implies lex_le(
                                #[trigger] keys_of(f)[j],
                                k@,
                            ) by {
                                assert(lex_lt(f[j].key, k@));
                            }
                            lemma_flat_index(bs, b, 0);
                            if gm < f.len() {
                                assert(keys_of(f)[gm] == bs[b][0].key);
                            }
                            lemma_first_gt_unique(keys_of(f), k@, gm);
                        }
                        let back = self.index_iter.prev_err();
                        match back {
                            Ok(ie2) => {
                                proof {
                                    assert(ie2@ == iv[b - 1]);
                                    assert(iv[b - 1].handle == ie2@.handle);
                                    assert forall|b2: int|
                                        0 <= b2 < iv.len() && (#[trigger] iv[b2]).handle
                                            == ie2@.handle implies b2 == b - 1 by {
                                        assert(iv[b2].handle.offset == b2);
                                        assert(iv[b - 1].handle.offset == b - 1);
                                    }
                                }
                                let res2 = self.data_iter_seek(
                                    &Seek::Last,
                                    &ie2.handle,
                                    cache,
                                );
                                proof {
                                    assert(self.data_iter.entries() == bs[b - 1]);
                                    lemma_pre_len_succ(bs, b - 1);
                                    lemma_pre_len_bounds(bs, b - 1);
                                    lemma_flat_index(bs, b - 1, bs[b - 1].len() - 1);
                                }
                                res2
                            },
                            Err(_) => {
                                proof {
                                    assert(b == 0);
                                    assert(pre_len(bs, 0) == 0);
                                }
                                Err(KvsError::OutOfBounds)
                            },
                        }
                    },
                }
            },
            Err(_) => {
                proof {
                    assert forall|bj: int| 0 <= bj < nb implies lex_lt(
                        (#[trigger] bs[bj]).last().key,
                        k@,
                    ) by {
                        assert(lex_lt(index_keys_of(iv)[bj], k@));
                        assert(iv[bj].key == bs[bj].last().key);
                    }
                    lemma_prefix_keys_lt(bs, nb, k@);
                    assert forall|j: int| 0 <= j < f.len() implies lex_le(
                        #[trigger] keys_of(f)[j],
                        k@,
                    ) by {
                        assert(lex_lt(f[j].key, k@));
                    }
                    lemma_first_gt_unique(keys_of(f), k@, f.len() as int);
                }
                let ie = self.index_iter.seek_last();
                proof {
                    assert(iv[nb - 1].handle == ie@.handle);
                    assert(self.table_ref().index_view()[nb - 1].handle == ie@.handle);
                    assert forall|b2: int|
                        0 <= b2 < iv.len() && (#[trigger] iv[b2]).handle
                            == ie@.handle implies b2 == nb - 1 by {
                        assert(iv[b2].handle.offset == b2);
                        assert(iv[nb - 1].handle.offset == nb - 1);
                    }
                }
                let res = self.data_iter_seek(&Seek::Last, &ie.handle, cache);
                proof {
                    lemma_pre_len_succ(bs, nb - 1);
                    lemma_pre_len_bounds(bs, nb - 1);
                    lemma_flat_index(bs, nb - 1, bs[nb - 1].len() - 1);
                }
                res
            },
        }
    }

    /// Moves the cursor to the sought entry and returns it: `First`/`Last`
    /// reach the table's extreme entries, `Forward(k)` the first entry with
    /// key at least `k`, `Backward(k)` the last entry with key at most `k`.
    pub fn seek(&mut self, seek: &Seek, cache: &mut BlockCache) -> (r: Result<KvPair, KvsError>)
        requires
            old(self).wf(),
            old(cache).wf(),
            old(cache).consistent_with(old(self).table_ref()),
        ensures
            final(self).wf(),
            final(self).table_ref() == old(self).table_ref(),
            final(cache).wf(),
            final(cache).consistent_with(old(self).table_ref()),
            forall|t2: SSTable|
                old(cache).consistent_with(t2) && t2.gen_id() != old(self).table_ref().gen_id()
                    ==> final(cache).consistent_with(t2),
            ({
                let s = old(self).entries();
                let n = s.len() as int;
                match seek {
                    Seek::First => (r matches Ok(e) && e@ == s[0] && final(self).cur() == 0),
                    Seek::Last => (r matches Ok(e) && e@ == s[n - 1] && final(self).cur() == n - 1),
                    Seek::Forward(k) => {
                        let m = first_geq(keys_of(s), k@);
                        &&& m < n ==> (r matches Ok(e) && e@ == s[m] && final(self).cur() == m)
                        &&& m == n ==> r == Err::<KvPair, KvsError>(KvsError::OutOfBounds)
                            && final(self).cur() == n
                    },
                    Seek::Backward(k) => {
                        let m = first_gt(keys_of(s), k@) - 1;
                        &&& m >= 0 ==> (r matches Ok(e) && e@ == s[m] && final(self).cur() == m)
                        &&& m < 0 ==> r == Err::<KvPair, KvsError>(KvsError::OutOfBounds)
                            && final(self).cur() == -1
                    },
                }
            }),
    {
        match seek {
            Seek::First => self.seek_to_first(cache),
            Seek::Last => self.seek_to_last(cache),
            Seek::Forward(k) => self.seek_to_forward(k, cache),
            Seek::Backward(k) => self.seek_to_backward(k, cache),
        }
    }

}

/// Forward traversal from the first entry visits a well-formed table's
/// entries in ascending key order; backward traversal from the last entry
/// visits them in descending key order; the two orders are exact reverses of
/// each other.
pub proof fn lemma_traversals_are_reverses(t: SSTable)
    requires
        t.wf(),
    ensures
        entries_sorted(t.entries()),
        t.entries().reverse().len() == t.entries().len(),
        forall|i: int|
            0 <= i < t.entries().len() ==> #[trigger] t.entries().reverse()[i] == t.entries()[
                t.entries().len() - 1 - i],
        forall|i: int, j: int|
            0 <= i < j < t.entries().len() ==> lex_lt(
                (#[trigger] t.entries().reverse()[j]).key,
                (#[trigger] t.entries().reverse()[i]).key,
            ),
{
    lemma_flat_sorted(t.blocks_view());
    let f = t.entries();
    assert forall|i: int, j: int| 0 <= i < j < f.len() implies lex_lt(
        (#[trigger] f.reverse()[j]).key,
        (#[trigger] f.reverse()[i]).key,
    ) by {
        assert(f.reverse()[j] == f[f.len() - 1 - j]);
        assert(f.reverse()[i] == f[f.len() - 1 - i]);
    }
}

} // verus!
