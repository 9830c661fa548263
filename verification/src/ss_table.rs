use vstd::prelude::*;

use crate::block::{
    block_cmds_ok, data_block_wf, decode_kv_entries, encode_kv_entries, entries_framable,
    entries_image_size, entry_cmds, index_block_wf, index_keys_of, lemma_entry_cmds_inverse,
    BlockHandle, DataBlock, IndexBlock, IndexEntry, IndexModel,
};
use crate::log::{replay_cmds, wf_log};
use crate::error::KvsError;
use crate::mem_table::{
    entries_lookup, entries_sorted, entries_wf, lemma_lookup_absent, lemma_lookup_found, KvModel,
    KvPair,
};
use crate::order::{key_cmp, lemma_lex_trans, lex_lt, KeyOrd};

verus! {

/// All entries of a sequence of data blocks, in table order.
pub open spec fn flat_blocks(bs: Seq<Seq<KvModel>>) -> Seq<KvModel>
    decreases bs.len(),
{
    if bs.len() == 0 {
        Seq::empty()
    } else {
        bs[0] + flat_blocks(bs.skip(1))
    }
}

/// The number of entries held by the first `b` blocks.
pub open spec fn pre_len(bs: Seq<Seq<KvModel>>, b: int) -> int
    decreases b,
{
    if b <= 0 {
        0
    } else {
        bs[0].len() + pre_len(bs.skip(1), b - 1)
    }
}

/// The block list of a well-formed table: nonempty sorted blocks whose key
/// ranges are disjoint and ascending.
pub open spec fn blocks_wf(bs: Seq<Seq<KvModel>>) -> bool {
    &&& bs.len() >= 1
    &&& forall|b: int| 0 <= b < bs.len() ==> data_block_wf(#[trigger] bs[b])
    &&& forall|b: int|
        0 <= b < bs.len() - 1 ==> lex_lt((#[trigger] bs[b]).last().key, bs[b + 1][0].key)
}

pub proof fn lemma_flat_len(bs: Seq<Seq<KvModel>>)
    ensures
        flat_blocks(bs).len() == pre_len(bs, bs.len() as int),
    decreases bs.len(),
{
    if bs.len() > 0 {
        lemma_flat_len(bs.skip(1));
    }
}

pub proof fn lemma_pre_len_succ(bs: Seq<Seq<KvModel>>, b: int)
    requires
        0 <= b < bs.len(),
    ensures
        pre_len(bs, b + 1) == pre_len(bs, b) + bs[b].len(),
    decreases b,
{
    if b > 0 {
        assert(bs.skip(1)[b - 1] == bs[b]);
        lemma_pre_len_succ(bs.skip(1), b - 1);
    } else {
        assert(pre_len(bs.skip(1), 0) == 0);
    }
}

pub proof fn lemma_flat_index(bs: Seq<Seq<KvModel>>, b: int, j: int)
    requires
        0 <= b < bs.len(),
        0 <= j < bs[b].len(),
    ensures
        0 <= pre_len(bs, b) + j < flat_blocks(bs).len(),
        flat_blocks(bs)[pre_len(bs, b) + j] == bs[b][j],
    decreases b,
{
    lemma_flat_len(bs);
    if b == 0 {
        assert(flat_blocks(bs)[j] == bs[0][j]);
        lemma_pre_len_bounds(bs, bs.len() as int);
        assert(pre_len(bs, 1) == bs[0].len() + pre_len(bs.skip(1), 0));
        lemma_pre_len_nonneg_from(bs, 1, bs.len() as int);
    } else {
        assert(bs.skip(1)[b - 1] == bs[b]);
        lemma_flat_index(bs.skip(1), b - 1, j);
        assert(flat_blocks(bs)[bs[0].len() + (pre_len(bs.skip(1), b - 1) + j)] == flat_blocks(
            bs.skip(1),
        )[pre_len(bs.skip(1), b - 1) + j]);
    }
}

/// The prefix counts only grow as more blocks are counted.
pub proof fn lemma_pre_len_nonneg_from(bs: Seq<Seq<KvModel>>, b1: int, b2: int)
    requires
        0 <= b1 <= b2 <= bs.len(),
    ensures
        pre_len(bs, b1) <= pre_len(bs, b2),
    decreases b2 - b1,
{
    if b1 < b2 {
        lemma_pre_len_succ(bs, b1);
        lemma_pre_len_nonneg_from(bs, b1 + 1, b2);
    }
}

pub proof fn lemma_pre_len_bounds(bs: Seq<Seq<KvModel>>, b: int)
    requires
        0 <= b <= bs.len(),
    ensures
        0 <= pre_len(bs, b) <= flat_blocks(bs).len(),
    decreases b,
{
    lemma_flat_len(bs);
    lemma_pre_len_nonneg_from(bs, 0, b);
    lemma_pre_len_nonneg_from(bs, b, bs.len() as int);
}

/// The entries of a well-formed block list are globally sorted, and the
/// stream starts with the first block's first entry.
pub proof fn lemma_flat_sorted(bs: Seq<Seq<KvModel>>)
    requires
        blocks_wf(bs),
    ensures
        entries_sorted(flat_blocks(bs)),
        entries_wf(flat_blocks(bs)),
        flat_blocks(bs).len() >= 1,
        flat_blocks(bs)[0] == bs[0][0],
    decreases bs.len(),
{
    let f = flat_blocks(bs);
    if bs.len() == 1 {
        assert(bs.skip(1).len() == 0);
        assert(flat_blocks(bs.skip(1)) =~= Seq::<KvModel>::empty());
        assert(f =~= bs[0]);
    } else {
        let tail = bs.skip(1);
        assert(blocks_wf(tail)) by {
            assert forall|b: int| 0 <= b < tail.len() implies data_block_wf(#[trigger] tail[b]) by {
                assert(tail[b] == bs[b + 1]);
            }
            assert forall|b: int| 0 <= b < tail.len() - 1 implies lex_lt(
                (#[trigger] tail[b]).last().key,
                tail[b + 1][0].key,
            ) by {
                assert(tail[b] == bs[b + 1]);
                assert(tail[b + 1] == bs[b + 2]);
            }
        }
        lemma_flat_sorted(tail);
        let ft = flat_blocks(tail);
        let n0 = bs[0].len() as int;
        assert(ft[0] == bs[1][0]);
        assert forall|x: int, y: int| 0 <= x < n0 && 0 <= y < ft.len() implies lex_lt(
            bs[0][x].key,
            ft[y].key,
        ) by {
            assert(lex_lt(bs[0].last().key, bs[1][0].key));
            if x < n0 - 1 {
                assert(lex_lt(bs[0][x].key, bs[0].last().key));
                lemma_lex_trans(bs[0][x].key, bs[0].last().key, ft[0].key);
            }
            if y > 0 {
                assert(lex_lt(ft[0].key, ft[y].key));
                lemma_lex_trans(bs[0][x].key, ft[0].key, ft[y].key);
            }
        }
        assert(entries_sorted(f)) by {
            assert forall|i: int, j: int| 0 <= i < j < f.len() implies lex_lt(
                #[trigger] f[i].key,
                #[trigger] f[j].key,
            ) by {
                if j < n0 {
                    assert(f[i] == bs[0][i]);
                    assert(f[j] == bs[0][j]);
                } else if i >= n0 {
                    assert(f[i] == ft[i - n0]);
                    assert(f[j] == ft[j - n0]);
                } else {
                    assert(f[i] == bs[0][i]);
                    assert(f[j] == ft[j - n0]);
                }
            }
        }
        assert(entries_wf(f)) by {
            assert forall|i: int| 0 <= i < f.len() implies crate::mem_table::kv_wf(
                #[trigger] f[i],
            ) by {
                if i < n0 {
                    assert(f[i] == bs[0][i]);
                } else {
                    assert(f[i] == ft[i - n0]);
                }
            }
        }
        assert(f[0] == bs[0][0]);
    }
}

/// The entries packed greedily into blocks of at most `bsize` entries.
pub open spec fn packed_blocks(s: Seq<KvModel>, bsize: int) -> Seq<Seq<KvModel>>
    decreases s.len(),
    when bsize >= 1
{
    if s.len() == 0 {
        Seq::empty()
    } else if s.len() <= bsize {
        seq![s]
    } else {
        seq![s.take(bsize)] + packed_blocks(s.skip(bsize), bsize)
    }
}

pub proof fn lemma_packed_flat(s: Seq<KvModel>, bsize: int)
    requires
        bsize >= 1,
    ensures
        flat_blocks(packed_blocks(s, bsize)) == s,
    decreases s.len(),
{
    if s.len() == 0 {
        assert(flat_blocks(packed_blocks(s, bsize)) =~= s);
    } else if s.len() <= bsize {
        assert(packed_blocks(s, bsize).skip(1) =~= Seq::<Seq<KvModel>>::empty());
        assert(flat_blocks(Seq::<Seq<KvModel>>::empty()) =~= Seq::<KvModel>::empty());
        assert(flat_blocks(packed_blocks(s, bsize)) =~= s);
    } else {
        lemma_packed_flat(s.skip(bsize), bsize);
        assert(packed_blocks(s, bsize).skip(1) =~= packed_blocks(s.skip(bsize), bsize));
        assert(flat_blocks(packed_blocks(s, bsize)) =~= s.take(bsize) + s.skip(bsize));
        assert(s.take(bsize) + s.skip(bsize) =~= s);
    }
}

pub proof fn lemma_packed_wf(s: Seq<KvModel>, bsize: int)
    requires
        1 <= bsize < 0xFFFF_FFFF,
        s.len() >= 1,
        entries_sorted(s),
        entries_wf(s),
    ensures
        blocks_wf(packed_blocks(s, bsize)),
        1 <= packed_blocks(s, bsize).len() <= s.len(),
        forall|b: int|
            0 <= b < packed_blocks(s, bsize).len() ==> (#[trigger] packed_blocks(s, bsize)[b]).len()
                <= bsize,
    decreases s.len(),
{
    let ps = packed_blocks(s, bsize);
    if s.len() <= bsize {
        assert(ps == seq![s]);
        assert(ps[0] == s);
    } else {
        let head = s.take(bsize);
        let rest = s.skip(bsize);
        assert(entries_sorted(rest) && entries_wf(rest)) by {
            assert forall|i: int, j: int| 0 <= i < j < rest.len() implies lex_lt(
                #[trigger] rest[i].key,
                #[trigger] rest[j].key,
            ) by {
                assert(rest[i] == s[i + bsize]);
                assert(rest[j] == s[j + bsize]);
            }
            assert forall|i: int| 0 <= i < rest.len() implies crate::mem_table::kv_wf(
                #[trigger] rest[i],
            ) by {
                assert(rest[i] == s[i + bsize]);
            }
        }
        lemma_packed_wf(rest, bsize);
        let pr = packed_blocks(rest, bsize);
        assert(data_block_wf(head)) by {
            assert forall|i: int, j: int| 0 <= i < j < head.len() implies lex_lt(
                #[trigger] head[i].key,
                #[trigger] head[j].key,
            ) by {
                assert(head[i] == s[i]);
                assert(head[j] == s[j]);
            }
            assert forall|i: int| 0 <= i < head.len() implies crate::mem_table::kv_wf(
                #[trigger] head[i],
            ) by {
                assert(head[i] == s[i]);
            }
        }
        assert forall|b: int| 0 <= b < ps.len() implies data_block_wf(#[trigger] ps[b]) by {
            if b > 0 {
                assert(ps[b] == pr[b - 1]);
            }
        }
        assert forall|b: int| 0 <= b < ps.len() - 1 implies lex_lt(
            (#[trigger] ps[b]).last().key,
            ps[b + 1][0].key,
        ) by {
            if b == 0 {
                assert(ps[1] == pr[0]);
                assert(head.last() == s[bsize - 1]);
                if rest.len() <= bsize {
                    assert(pr[0] == rest);
                } else {
                    assert(pr[0] == rest.take(bsize));
                }
                assert(pr[0][0] == s[bsize]);
            } else {
                assert(ps[b] == pr[b - 1]);
                assert(ps[b + 1] == pr[b]);
            }
        }
        assert forall|b: int| 0 <= b < ps.len() implies (#[trigger] ps[b]).len() <= bsize by {
            if b > 0 {
                assert(ps[b] == pr[b - 1]);
            }
        }
    }
}


/// The greatest keys of a well-formed block list ascend with the blocks.
pub proof fn lemma_index_keys_sorted(packed: Seq<Seq<KvModel>>, iv: Seq<IndexModel>)
    requires
        blocks_wf(packed),
        1 <= iv.len() < 0xFFFF_FFFF,
        iv.len() == packed.len(),
        forall|b: int| 0 <= b < iv.len() ==> (#[trigger] iv[b]).key == packed[b].last().key,
    ensures
        index_block_wf(iv),
{
    lemma_flat_sorted(packed);
    let f = flat_blocks(packed);
    assert forall|b1: int, b2: int| 0 <= b1 < b2 < iv.len() implies lex_lt(
        #[trigger] index_keys_of(iv)[b1],
        #[trigger] index_keys_of(iv)[b2],
    ) by {
        lemma_pre_len_succ(packed, b1);
        lemma_pre_len_succ(packed, b2);
        lemma_flat_index(packed, b1, packed[b1].len() - 1);
        lemma_flat_index(packed, b2, packed[b2].len() - 1);
        lemma_pre_len_nonneg_from(packed, b1 + 1, b2);
        assert(f[pre_len(packed, b1) + (packed[b1].len() - 1)] == packed[b1].last());
        assert(f[pre_len(packed, b2) + (packed[b2].len() - 1)] == packed[b2].last());
        assert(index_keys_of(iv)[b1] == iv[b1].key);
        assert(index_keys_of(iv)[b2] == iv[b2].key);
    }
}

/// An immutable on-disk sorted table: data blocks in ascending key order and
/// one index block mapping each data block's greatest key to its locator.
#[derive(Debug)]
pub struct SSTable {
    gen: u64,
    data_blocks: Vec<DataBlock>,
    index_block: IndexBlock,
    entry_count: usize,
}

impl DeepView for DataBlock {
    type V = Seq<KvModel>;

    open spec fn deep_view(&self) -> Seq<KvModel> {
        self@
    }
}

impl SSTable {
    pub closed spec fn blocks_view(&self) -> Seq<Seq<KvModel>> {
        self.data_blocks.deep_view()
    }

    pub closed spec fn index_view(&self) -> Seq<IndexModel> {
        self.index_block@
    }

    pub closed spec fn gen_id(&self) -> u64 {
        self.gen
    }

    pub closed spec fn count(&self) -> int {
        self.entry_count as int
    }

    /// All entries of the table, in ascending key order.
    pub open spec fn entries(&self) -> Seq<KvModel> {
        flat_blocks(self.blocks_view())
    }

    pub open spec fn wf(&self) -> bool {
        &&& blocks_wf(self.blocks_view())
        &&& index_block_wf(self.index_view())
        &&& self.index_view().len() == self.blocks_view().len()
        &&& forall|b: int|
            0 <= b < self.index_view().len() ==> (#[trigger] self.index_view()[b]).key
                == self.blocks_view()[b].last().key
        &&& forall|b: int|
            0 <= b < self.index_view().len() ==> (#[trigger] self.index_view()[b]).handle.offset
                == b && self.index_view()[b].handle.len == self.blocks_view()[b].len()
        &&& self.count() == self.entries().len()
    }

    pub fn len(&self) -> (r: usize)
        requires
            self.wf(),
        ensures
            r == self.entries().len(),
    {
        self.entry_count
    }

    pub fn gen(&self) -> (r: u64)
        ensures
            r == self.gen_id(),
    {
        self.gen
    }

    /// The table's index block, decoded; read once per opened iterator.
    pub fn get_index_block(&self) -> (r: IndexBlock)
        ensures
            r@ == self.index_view(),
    {
        self.index_block.duplicate()
    }

    /// Whether any index entry carries this locator.
    pub fn has_handle(&self, handle: &BlockHandle) -> (r: bool)
        requires
            self.wf(),
        ensures
            r == exists|b: int|
                0 <= b < self.index_view().len() && (#[trigger] self.index_view()[b]).handle
                    == *handle,
    {
        let n = self.index_block.entries.len();
        proof {
            assert(self.index_view().len() == self.index_block.entries@.len());
        }
        let mut b: usize = 0;
        while b < n
            invariant
                self.wf(),
                n == self.index_block.entries@.len(),
                n == self.index_view().len(),
                b <= n,
                forall|x: int| 0 <= x < b ==> (#[trigger] self.index_view()[x]).handle != *handle,
            decreases n - b,
        {
            let e = &self.index_block.entries[b];
            proof {
                assert(self.index_view()[b as int] == self.index_block.entries@[b as int]@);
            }
            if e.handle.offset == handle.offset && e.handle.len == handle.len {
                return true;
            }
            b += 1;
        }
        false
    }

    /// The data block a locator from this table's index designates.
    pub fn get_data_block(&self, handle: &BlockHandle) -> (r: Result<DataBlock, KvsError>)
        requires
            self.wf(),
        ensures
            forall|b: int|
                0 <= b < self.index_view().len() && (#[trigger] self.index_view()[b]).handle
                    == *handle ==> (r matches Ok(db) && db@ == self.blocks_view()[b]),
            (forall|b: int|
                0 <= b < self.index_view().len() ==> (#[trigger] self.index_view()[b]).handle
                    != *handle) ==> r == Err::<DataBlock, KvsError>(KvsError::DataEmpty),
    {
        let n = self.data_blocks.len();
        proof {
            assert(self.blocks_view().len() == self.data_blocks@.len());
        }
        let mut b: usize = 0;
        while b < n
            invariant
                self.wf(),
                n == self.data_blocks@.len(),
                n == self.blocks_view().len(),
                b <= n,
                forall|x: int|
                    0 <= x < b ==> (#[trigger] self.index_view()[x]).handle != *handle,
            decreases n - b,
        {
            let e = &self.index_block.entries[b];
            proof {
                assert(self.index_view()[b as int] == self.index_block.entries@[b as int]@);
            }
            if e.handle.offset == handle.offset && e.handle.len == handle.len {
                let db = self.data_blocks[b].duplicate();
                proof {
                    assert(self.blocks_view()[b as int] == self.data_blocks@[b as int]@);
                    assert(self.index_view()[b as int].handle == *handle);
                    assert forall|x: int|
                        0 <= x < self.index_view().len() && (#[trigger] self.index_view()[x]).handle
                            == *handle implies x == b as int by {
                        if x != b as int {
                            assert(self.index_view()[x].handle.offset == x);
                        }
                    }
                }
                return Ok(db);
            }
            b += 1;
        }
        Err(KvsError::DataEmpty)
    }

    /// The record for `key`, if the table holds one: `Some(None)` is a
    /// tombstone.
    pub fn get(&self, key: &Vec<u8>) -> (r: Option<Option<Vec<u8>>>)
        requires
            self.wf(),
        ensures
            match r {
                Some(v) => entries_lookup(self.entries(), key@) == Some(v.deep_view()),
                Option::None => entries_lookup(self.entries(), key@) is None,
            },
    {
        let ghost bs = self.blocks_view();
        let ghost f = self.entries();
        proof {
            lemma_flat_sorted(bs);
            lemma_flat_len(bs);
        }
        let nb = self.data_blocks.len();
        let mut b: usize = 0;
        while b < nb
            invariant
                self.wf(),
                bs == self.blocks_view(),
                f == self.entries(),
                entries_sorted(f),
                nb == bs.len(),
                b <= nb,
                forall|x: int| 0 <= x < pre_len(bs, b as int) ==> (#[trigger] f[x].key) != key@,
            decreases nb - b,
        {
            let db = &self.data_blocks[b];
            let m = db.entries.len();
            proof {
                assert(bs[b as int] == self.data_blocks@[b as int]@);
            }
            let mut j: usize = 0;
            while j < m
                invariant
                    self.wf(),
                    bs == self.blocks_view(),
                    f == self.entries(),
                    entries_sorted(f),
                    nb == bs.len(),
                    b < nb,
                    db == &self.data_blocks[b as int],
                    bs[b as int] == db@,
                    m == db@.len(),
                    j <= m,
                    forall|x: int| 0 <= x < pre_len(bs, b as int) ==> (#[trigger] f[x].key) != key@,
                    forall|y: int| 0 <= y < j ==> (#[trigger] db@[y].key) != key@,
                decreases m - j,
            {
                match key_cmp(&db.entries[j].key, key) {
                    KeyOrd::Equal => {
                        proof {
                            assert(db@[j as int] == db.entries@[j as int]@);
                            lemma_flat_index(bs, b as int, j as int);
                            lemma_lookup_found(f, key@, pre_len(bs, b as int) + j);
                        }
                        let value = match &db.entries[j].value {
                            Some(v) => Some(v.clone()),
                            Option::None => Option::None,
                        };
                        return Some(value);
                    },
                    _ => {
                        proof {
                            assert(db@[j as int] == db.entries@[j as int]@);
                        }
                        j += 1;
                    },
                }
            }
            proof {
                lemma_pre_len_succ(bs, b as int);
                assert forall|x: int| 0 <= x < pre_len(bs, b + 1) implies (#[trigger] f[x].key)
                    != key@ by {
                    if x >= pre_len(bs, b as int) {
                        lemma_flat_index(bs, b as int, x - pre_len(bs, b as int));
                        assert(f[x] == bs[b as int][x - pre_len(bs, b as int)]);
                    }
                }
            }
            b += 1;
        }
        proof {
            assert(pre_len(bs, nb as int) == f.len());
            lemma_lookup_absent(f, key@);
        }
        Option::None
    }

    /// A flat copy of the table's entries, in ascending key order.
    pub fn all_entries(&self) -> (r: Vec<KvPair>)
        requires
            self.wf(),
        ensures
            r.deep_view() == self.entries(),
    {
        let ghost bs = self.blocks_view();
        let ghost f = self.entries();
        proof {
            lemma_flat_len(bs);
        }
        let nb = self.data_blocks.len();
        let mut out: Vec<KvPair> = Vec::new();
        let mut b: usize = 0;
        proof {
            assert(out.deep_view() =~= f.take(pre_len(bs, 0)));
        }
        while b < nb
            invariant
                self.wf(),
                bs == self.blocks_view(),
                f == self.entries(),
                f.len() == pre_len(bs, bs.len() as int),
                nb == bs.len(),
                b <= nb,
                out@.len() == pre_len(bs, b as int),
                out.deep_view() == f.take(pre_len(bs, b as int)),
            decreases nb - b,
        {
            let db = &self.data_blocks[b];
            let m = db.entries.len();
            proof {
                assert(bs[b as int] == self.data_blocks@[b as int]@);
                lemma_pre_len_succ(bs, b as int);
                lemma_pre_len_bounds(bs, b as int);
                lemma_pre_len_bounds(bs, b + 1);
            }
            let mut j: usize = 0;
            while j < m
                invariant
                    self.wf(),
                    bs == self.blocks_view(),
                    f == self.entries(),
                    f.len() == pre_len(bs, bs.len() as int),
                    nb == bs.len(),
                    b < nb,
                    db == &self.data_blocks[b as int],
                    bs[b as int] == db@,
                    m == db@.len(),
                    j <= m,
                    pre_len(bs, b as int) + m <= f.len(),
                    out@.len() == pre_len(bs, b as int) + j,
                    out.deep_view() == f.take(pre_len(bs, b as int) + j),
                decreases m - j,
            {
                let pair = db.entries[j].duplicate();
                let ghost prevv = out@;
                let ghost prevd = out.deep_view();
                out.push(pair);
                proof {
                    assert(out@ == prevv.push(pair));
                    lemma_flat_index(bs, b as int, j as int);
                    assert(db@[j as int] == db.entries@[j as int]@);
                    let hi = pre_len(bs, b as int) + j;
                    assert forall|x: int| 0 <= x < hi + 1 implies out.deep_view()[x] == f.take(
                        hi + 1,
                    )[x] by {
                        assert(out.deep_view()[x] == out@[x].deep_view());
                        if x < hi {
                            assert(out@[x] == prevv[x]);
                            assert(prevd[x] == prevv[x].deep_view());
                            assert(prevd[x] == f.take(hi)[x]);
                        } else {
                            assert(out@[x] == pair);
                            assert(f[hi] == bs[b as int][j as int]);
                        }
                    }
                    assert(out.deep_view() =~~= f.take(hi + 1));
                }
                j += 1;
            }
            proof {
                lemma_pre_len_succ(bs, b as int);
            }
            b += 1;
        }
        proof {
            assert(f.take(pre_len(bs, nb as int)) =~= f);
        }
        out
    }

    /// The table's durable byte image: its entries as a framed stream of set
    /// and remove records, in ascending key order.
    pub fn encode(&self) -> (r: Result<Vec<u8>, KvsError>)
        requires
            self.wf(),
        ensures
            r matches Ok(bytes) ==> wf_log(bytes@) && replay_cmds(bytes@) == Some(
                entry_cmds(self.entries()),
            ),
            entries_framable(self.entries()) && entries_image_size(self.entries()) + 4
                <= usize::MAX ==> r is Ok,
            r is Err ==> r == Err::<Vec<u8>, KvsError>(KvsError::IOError),
    {
        let entries = self.all_entries();
        proof {
            lemma_flat_sorted(self.blocks_view());
        }
        encode_kv_entries(&entries)
    }

    /// A table rebuilt from its durable byte image under the given
    /// generation; fails exactly on a malformed, unordered, empty or
    /// oversized image.
    pub fn decode(gen: u64, bytes: &Vec<u8>, block_size: usize) -> (r: Result<SSTable, KvsError>)
        requires
            1 <= block_size < 0xFFFF_FFFF,
        ensures
            r matches Ok(t) ==> {
                &&& t.wf()
                &&& t.gen_id() == gen
                &&& replay_cmds(bytes@) == Some(entry_cmds(t.entries()))
            },
            r is Err ==> replay_cmds(bytes@) is None || !block_cmds_ok(
                replay_cmds(bytes@).unwrap(),
            ),
            replay_cmds(bytes@) matches Some(cs) && block_cmds_ok(cs) ==> r is Ok,
    {
        let entries = decode_kv_entries(bytes)?;
        let built = SSTable::create_for_mem_table(gen, &entries, block_size);
        match built {
            Ok(t) => Ok(t),
            Err(_) => {
                proof {
                    assert(false);
                }
                Err(KvsError::DataEmpty)
            },
        }
    }

    /// The table's least and greatest keys.
    pub fn key_range(&self) -> (r: (Vec<u8>, Vec<u8>))
        requires
            self.wf(),
        ensures
            r.0@ == self.entries()[0].key,
            r.1@ == self.entries()[self.entries().len() - 1].key,
    {
        let ghost bs = self.blocks_view();
        proof {
            lemma_flat_sorted(bs);
            lemma_flat_len(bs);
            lemma_pre_len_succ(bs, bs.len() - 1);
            lemma_pre_len_bounds(bs, bs.len() - 1);
            lemma_flat_index(bs, bs.len() - 1, bs[bs.len() - 1].len() - 1);
            assert(bs[0] == self.data_blocks@[0]@);
            assert(bs[bs.len() - 1] == self.data_blocks@[bs.len() - 1]@);
        }
        let first = self.data_blocks[0].entries[0].key.clone();
        let nb = self.data_blocks.len();
        let last_block = &self.data_blocks[nb - 1];
        let last = last_block.entries[last_block.entries.len() - 1].key.clone();
        proof {
            let lb = bs.len() - 1;
            assert(self.entries()[pre_len(bs, lb) + (bs[lb].len() - 1)] == bs[lb].last());
        }
        (first, last)
    }


    /// Copies `entries[idx .. idx + chunk]` into a fresh data block.
    fn build_block(entries: &Vec<KvPair>, idx: usize, chunk: usize) -> (db: DataBlock)
        requires
            idx + chunk <= entries@.len(),
            chunk >= 1,
        ensures
            db@ == entries.deep_view().subrange(idx as int, idx + chunk),
    {
        let ghost dv = entries.deep_view();
        let total = entries.len();
        let mut cur: Vec<KvPair> = Vec::new();
        let mut j: usize = 0;
        while j < chunk
            invariant
                entries.deep_view() == dv,
                idx + chunk <= dv.len(),
                dv.len() == entries@.len(),
                total == entries@.len(),
                j <= chunk,
                cur@.len() == j as int,
                cur.deep_view() == dv.subrange(idx as int, idx + j),
            decreases chunk - j,
        {
            let pair = entries[idx + j].duplicate();
            let ghost prevv = cur@;
            let ghost prevd = cur.deep_view();
            cur.push(pair);
            proof {
                assert(cur@ == prevv.push(pair));
                assert forall|x: int| 0 <= x < j + 1 implies cur.deep_view()[x] == dv.subrange(
                    idx as int,
                    idx + j + 1,
                )[x] by {
                    assert(cur.deep_view()[x] == cur@[x].deep_view());
                    if x < j {
                        assert(cur@[x] == prevv[x]);
                        assert(prevd[x] == prevv[x].deep_view());
                        assert(prevd[x] == dv.subrange(idx as int, idx + j)[x]);
                    } else {
                        assert(cur@[x] == pair);
                        assert(pair@ == entries@[idx + j]@);
                        assert(dv[idx + j] == entries@[idx + j].deep_view());
                    }
                }
                assert(cur.deep_view() =~~= dv.subrange(idx as int, idx + j + 1));
            }
            j += 1;
        }
        DataBlock { entries: cur }
    }

    /// Builds a table from a frozen buffer's sorted entries, packing them
    /// into data blocks of at most `block_size` entries and recording each
    /// block's greatest key in the index.
    #[verifier::rlimit(100)]
    #[verifier::spinoff_prover]
    pub fn create_for_mem_table(gen: u64, entries: &Vec<KvPair>, block_size: usize) -> (r: Result<
        SSTable,
        KvsError,
    >)
        requires
            entries_sorted(entries.deep_view()),
            entries_wf(entries.deep_view()),
            entries@.len() < 0xFFFF_FFFF,
            1 <= block_size < 0xFFFF_FFFF,
        ensures
            match r {
                Ok(t) => {
                    &&& t.wf()
                    &&& t.entries() == entries.deep_view()
                    &&& t.gen_id() == gen
                },
                Err(e) => e == KvsError::DataEmpty,
            },
            (r is Err) == (entries@.len() == 0),
    {
        if entries.len() == 0 {
            return Err(KvsError::DataEmpty);
        }
        let ghost dv = entries.deep_view();
        let ghost packed = packed_blocks(dv, block_size as int);
        proof {
            lemma_packed_flat(dv, block_size as int);
            lemma_packed_wf(dv, block_size as int);
            lemma_flat_sorted(packed);
            lemma_flat_len(packed);
            assert(dv.len() == entries@.len());
            assert(dv.skip(0) =~= dv);
        }
        let n = entries.len();
        let mut blocks: Vec<DataBlock> = Vec::new();
        let mut index: Vec<IndexEntry> = Vec::new();
        let mut idx: usize = 0;
        while idx < n
            invariant
                entries.deep_view() == dv,
                n == dv.len(),
                packed == packed_blocks(dv, block_size as int),
                1 <= block_size < 0xFFFF_FFFF,
                n < 0xFFFF_FFFF,
                idx <= n,
                blocks@.len() == index@.len(),
                packed == blocks.deep_view() + packed_blocks(
                    dv.skip(idx as int),
                    block_size as int,
                ),
                forall|b: int|
                    0 <= b < blocks@.len() ==> (#[trigger] blocks.deep_view()[b]) == packed[b],
                forall|b: int|
                    0 <= b < index@.len() ==> (#[trigger] index@[b]@).key == packed[b].last().key
                        && index@[b]@.handle.offset == b && index@[b]@.handle.len
                        == packed[b].len(),
            decreases n - idx,
        {
            let remaining = n - idx;
            let chunk = if remaining <= block_size {
                remaining
            } else {
                block_size
            };
            let db = Self::build_block(entries, idx, chunk);
            let ghost bview = db@;
            proof {
                assert(bview == dv.subrange(idx as int, idx + chunk));
                assert(packed_blocks(dv.skip(idx as int), block_size as int)[0] == bview) by {
                    let tail = dv.skip(idx as int);
                    if tail.len() <= block_size {
                        assert(tail =~= dv.subrange(idx as int, idx + chunk));
                    } else {
                        assert(tail.take(block_size as int) =~= dv.subrange(
                            idx as int,
                            idx + chunk,
                        ));
                    }
                }
                assert(blocks.deep_view().len() == blocks@.len());
                assert(packed[blocks@.len() as int] == bview) by {
                    assert(packed == blocks.deep_view() + packed_blocks(
                        dv.skip(idx as int),
                        block_size as int,
                    ));
                }
            }
            let last_key = db.entries[chunk - 1].key.clone();
            let bcount = blocks.len();
            let handle = BlockHandle { offset: bcount as u64, len: chunk as u64 };
            let ie = IndexEntry { key: last_key, handle };
            let ghost prevb = blocks@;
            let ghost prevbd = blocks.deep_view();
            let ghost previ = index@;
            blocks.push(db);
            index.push(ie);
            proof {
                assert(blocks@ == prevb.push(db));
                assert(index@ == previ.push(ie));
                assert(db@ == bview);
                assert forall|b: int| 0 <= b < blocks@.len() implies (
                #[trigger] blocks.deep_view()[b]) == packed[b] by {
                    assert(blocks.deep_view()[b] == blocks@[b].deep_view());
                    if b < prevb.len() {
                        assert(blocks@[b] == prevb[b]);
                        assert(prevbd[b] == prevb[b].deep_view());
                    } else {
                        assert(blocks@[b] == db);
                    }
                }
                assert(bview.last() == bview[chunk - 1]);
                assert(ie@.key == bview.last().key) by {
                    assert(db.entries@[chunk - 1]@ == bview[chunk - 1]);
                }
                assert forall|b: int| 0 <= b < index@.len() implies (#[trigger] index@[b]@).key
                    == packed[b].last().key && index@[b]@.handle.offset == b
                    && index@[b]@.handle.len == packed[b].len() by {
                    if b < previ.len() {
                        assert(index@[b] == previ[b]);
                    } else {
                        assert(index@[b] == ie);
                    }
                }
                assert(packed == blocks.deep_view() + packed_blocks(
                    dv.skip(idx + chunk),
                    block_size as int,
                )) by {
                    let tail = dv.skip(idx as int);
                    if tail.len() <= block_size {
                        assert(idx + chunk == n);
                        assert(dv.skip(idx + chunk).len() == 0);
                        assert(packed_blocks(dv.skip(idx + chunk), block_size as int)
                            =~= Seq::<Seq<KvModel>>::empty());
                        assert(packed_blocks(tail, block_size as int) =~= seq![bview]);
                    } else {
                        assert(tail.skip(block_size as int) =~= dv.skip(idx + chunk));
                        assert(packed_blocks(tail, block_size as int) =~= seq![bview]
                            + packed_blocks(dv.skip(idx + chunk), block_size as int));
                    }
                    assert(blocks.deep_view() =~~= prevbd + seq![bview]);
                    assert(prevbd + (seq![bview] + packed_blocks(
                        dv.skip(idx + chunk),
                        block_size as int,
                    )) =~~= (prevbd + seq![bview]) + packed_blocks(
                        dv.skip(idx + chunk),
                        block_size as int,
                    ));
                }
            }
            idx += chunk;
        }
        proof {
            assert(dv.skip(n as int).len() == 0);
            assert(packed_blocks(dv.skip(n as int), block_size as int)
                =~= Seq::<Seq<KvModel>>::empty());
            assert(packed =~~= blocks.deep_view());
        }
        let index_block = IndexBlock { entries: index };
        let t = SSTable { gen, data_blocks: blocks, index_block, entry_count: n };
        proof {
            assert(t.blocks_view() == packed);
            assert(t.index_view() == index.deep_view());
            assert(t.index_view().len() == index@.len());
            assert forall|b: int| 0 <= b < t.index_view().len() implies (
            #[trigger] t.index_view()[b]).key == t.blocks_view()[b].last().key by {
                assert(t.index_view()[b] == index@[b].deep_view());
            }
            assert forall|b: int| 0 <= b < t.index_view().len() implies (
            #[trigger] t.index_view()[b]).handle.offset == b && t.index_view()[b].handle.len
                == t.blocks_view()[b].len() by {
                assert(t.index_view()[b] == index@[b].deep_view());
            }
            lemma_index_keys_sorted(packed, t.index_view());
            assert(t.entries() == dv);
            assert(t.wf());
        }
        Ok(t)
    }
}

} // verus!
