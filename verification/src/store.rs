use vstd::prelude::*;

use crate::cmd::{cmd_encoding, lemma_command_round_trip, CmdModel, CommandData};
use crate::error::KvsError;
use crate::log::{
    lemma_replay_append, pkg_cmds, replay_cmds, wf_log, CommandPackage, MmapWriter,
};
use crate::mem_table::{entries_lookup, KvModel, MemTable};
use crate::block::{entries_framable, entries_image_size, entry_cmds};
use crate::ss_table::SSTable;

verus! {

/// The default byte budget of one log segment before the buffer is frozen.
pub const DEFAULT_COMPACTION_THRESHOLD: usize = 1024 * 1024 * 6;

/// The default number of entries packed into one data block.
pub const DEFAULT_BLOCK_SIZE: usize = 64;

/// The record the command history leaves for `k`: the latest set or remove
/// wins; `Some(None)` is a deletion, `None` no record at all.
pub open spec fn cmds_lookup(cs: Seq<CmdModel>, k: Seq<u8>) -> Option<Option<Seq<u8>>>
    decreases cs.len(),
{
    if cs.len() == 0 {
        Option::None
    } else {
        match cs.last() {
            CmdModel::SetCmd { key, value } => if key == k {
                Some(Some(value))
            } else {
                cmds_lookup(cs.drop_last(), k)
            },
            CmdModel::RemoveCmd { key } => if key == k {
                Some(Option::<Seq<u8>>::None)
            } else {
                cmds_lookup(cs.drop_last(), k)
            },
            CmdModel::GetCmd { key } => cmds_lookup(cs.drop_last(), k),
        }
    }
}

/// The value the table list answers for `k`, newest table first; a tombstone
/// in a newer table shadows older tables.
pub open spec fn tables_lookup(ts: Seq<Seq<KvModel>>, k: Seq<u8>) -> Option<Seq<u8>>
    decreases ts.len(),
{
    if ts.len() == 0 {
        Option::None
    } else {
        match entries_lookup(ts[0], k) {
            Some(x) => x,
            Option::None => tables_lookup(ts.skip(1), k),
        }
    }
}

/// The commands replayed from a list of segment byte images, in order;
/// `None` when any segment holds a complete record that fails to decode.
pub open spec fn segments_cmds(segs: Seq<Seq<u8>>) -> Option<Seq<CmdModel>>
    decreases segs.len(),
{
    if segs.len() == 0 {
        Some(Seq::empty())
    } else {
        match segments_cmds(segs.drop_last()) {
            Option::None => Option::<Seq<CmdModel>>::None,
            Some(pre) => match replay_cmds(segs.last()) {
                Option::None => Option::<Seq<CmdModel>>::None,
                Some(cs) => Some(pre + cs),
            },
        }
    }
}

/// The command's key and value fit the store's record size bound; a read
/// leaves no record, so its size never matters.
pub open spec fn cmd_sized(c: CmdModel) -> bool {
    match c {
        CmdModel::SetCmd { key, value } => key.len() < 0x0100_0000 && value.len() < 0x0100_0000,
        CmdModel::RemoveCmd { key } => key.len() < 0x0100_0000,
        CmdModel::GetCmd { key } => true,
    }
}

pub open spec fn cmds_sized(cs: Seq<CmdModel>) -> bool {
    forall|i: int| 0 <= i < cs.len() ==> cmd_sized(#[trigger] cs[i])
}

/// An oversized set or remove anywhere in the segments makes the whole
/// replayed history oversized.
proof fn lemma_oversized_command(
    segs: Seq<Seq<u8>>,
    i: int,
    acc: Seq<CmdModel>,
    cs_i: Seq<CmdModel>,
    j: int,
)
    requires
        0 <= i < segs.len(),
        segments_cmds(segs.take(i)) == Some(acc),
        replay_cmds(segs[i]) == Some(cs_i),
        0 <= j < cs_i.len(),
        !cmd_sized(cs_i[j]),
    ensures
        segments_cmds(segs) is None || !cmds_sized(segments_cmds(segs).unwrap()),
{
    if segments_cmds(segs) is Some {
        let all = segments_cmds(segs).unwrap();
        assert(segs.take(i + 1).drop_last() =~= segs.take(i));
        assert(segs.take(i + 1).last() == segs[i]);
        assert(segments_cmds(segs.take(i + 1)) == Some(acc + cs_i));
        lemma_segments_cmds_prefix(segs, i + 1);
        let pre = acc + cs_i;
        let pos = acc.len() + j;
        assert(pre[pos as int] == cs_i[j]);
        assert(all.take(pre.len() as int)[pos as int] == all[pos as int]);
        assert(all[pos as int] == cs_i[j]);
        assert(!cmds_sized(all));
    }
}

/// A segment whose replay fails poisons the whole list's replay.
pub proof fn lemma_segments_cmds_none(segs: Seq<Seq<u8>>, i: int)
    requires
        0 <= i < segs.len(),
        replay_cmds(segs[i]) is None,
    ensures
        segments_cmds(segs) is None,
    decreases segs.len(),
{
    if i == segs.len() - 1 {
        assert(segs.last() == segs[i]);
    } else {
        assert(segs.drop_last()[i] == segs[i]);
        lemma_segments_cmds_none(segs.drop_last(), i);
    }
}

/// The replay of the first `i` segments is a prefix of the whole replay.
pub proof fn lemma_segments_cmds_prefix(segs: Seq<Seq<u8>>, i: int)
    requires
        0 <= i <= segs.len(),
    ensures
        segments_cmds(segs) matches Some(all) ==> segments_cmds(segs.take(i)) matches Some(pre)
            && pre.len() <= all.len() && pre == all.take(pre.len() as int),
    decreases segs.len() - i,
{
    if segments_cmds(segs) is Some {
        let all = segments_cmds(segs).unwrap();
        if i == segs.len() {
            assert(segs.take(i) =~= segs);
            assert(all.take(all.len() as int) =~= all);
        } else {
            lemma_segments_cmds_prefix(segs, i + 1);
            let next = segments_cmds(segs.take(i + 1)).unwrap();
            assert(segs.take(i + 1).drop_last() =~= segs.take(i));
            assert(segs.take(i + 1).last() == segs[i]);
            let pre = segments_cmds(segs.take(i)).unwrap();
            let cs = replay_cmds(segs[i]).unwrap();
            assert(next == pre + cs);
            assert(pre == next.take(pre.len() as int)) by {
                assert(pre =~= (pre + cs).take(pre.len() as int));
            }
            assert(pre == all.take(pre.len() as int)) by {
                assert(next == all.take(next.len() as int));
                assert(all.take(next.len() as int).take(pre.len() as int) =~= all.take(
                    pre.len() as int,
                ));
            }
        }
    }
}

/// The later command history decides a key before the earlier one does.
pub proof fn lemma_cmds_lookup_concat(a: Seq<CmdModel>, b: Seq<CmdModel>, k: Seq<u8>)
    ensures
        cmds_lookup(a + b, k) == (match cmds_lookup(b, k) {
            Some(x) => Some(x),
            Option::None => cmds_lookup(a, k),
        }),
    decreases b.len(),
{
    if b.len() == 0 {
        assert(a + b =~= a);
    } else {
        assert((a + b).last() == b.last());
        assert((a + b).drop_last() =~= a + b.drop_last());
        lemma_cmds_lookup_concat(a, b.drop_last(), k);
    }
}

/// The store interface both storage strategies implement.
pub trait KVStore: Sized {
    spec fn wf(&self) -> bool;

    /// The value the store currently answers for `key`.
    spec fn lookup(&self, key: Seq<u8>) -> Option<Seq<u8>>;

    fn name() -> (r: &'static str);

    /// Opens a store from the replayed byte images of its log segments, in
    /// ascending generation order: the startup recovery path. On success the
    /// store answers every key exactly as the replayed command history does;
    /// it fails exactly when a complete record fails to decode or a replayed
    /// command exceeds the store's size bound.
    fn open(segments: Vec<Vec<u8>>) -> (r: Result<Self, KvsError>)
        ensures
            match r {
                Ok(s) => {
                    &&& s.wf()
                    &&& segments_cmds(segments.deep_view()) matches Some(cs) && cmds_sized(cs)
                    &&& forall|k: Seq<u8>|
                        #[trigger] s.lookup(k) == (match cmds_lookup(
                            segments_cmds(segments.deep_view()).unwrap(),
                            k,
                        ) {
                            Some(x) => x,
                            Option::None => Option::<Seq<u8>>::None,
                        })
                },
                Err(e) => {
                    &&& e == KvsError::DecodeError
                    &&& segments_cmds(segments.deep_view()) is None || !cmds_sized(
                        segments_cmds(segments.deep_view()).unwrap(),
                    )
                },
            },
    ;

    fn flush(&mut self) -> (r: Result<(), KvsError>)
        requires
            old(self).wf(),
        ensures
            final(self).wf(),
            r is Ok,
            forall|k: Seq<u8>| #[trigger] final(self).lookup(k) == old(self).lookup(k),
    ;

    fn set(&mut self, key: &Vec<u8>, value: Vec<u8>) -> (r: Result<(), KvsError>)
        requires
            old(self).wf(),
            key@.len() < 0x0100_0000,
            value@.len() < 0x0100_0000,
        ensures
            final(self).wf(),
            r is Ok,
            final(self).lookup(key@) == Some(value@),
            forall|k: Seq<u8>|
                k != key@ ==> #[trigger] final(self).lookup(k) == old(self).lookup(k),
    ;

    fn get(&self, key: &Vec<u8>) -> (r: Result<Option<Vec<u8>>, KvsError>)
        requires
            self.wf(),
        ensures
            r matches Ok(v) && v.deep_view() == self.lookup(key@),
    ;

    fn remove(&mut self, key: &Vec<u8>) -> (r: Result<(), KvsError>)
        requires
            old(self).wf(),
            key@.len() < 0x0100_0000,
        ensures
            final(self).wf(),
            r is Ok,
            final(self).lookup(key@) is None,
            forall|k: Seq<u8>|
                k != key@ ==> #[trigger] final(self).lookup(k) == old(self).lookup(k),
    ;

    fn shut_down(&mut self) -> (r: Result<(), KvsError>)
        requires
            old(self).wf(),
        ensures
            final(self).wf(),
            r is Ok,
            forall|k: Seq<u8>| #[trigger] final(self).lookup(k) == old(self).lookup(k),
    ;
}

/// The log-structured engine: a durable append-only log feeding a sorted
/// in-memory buffer, frozen into immutable sorted tables at a size threshold.
pub struct LsmStore {
    mem_table: MemTable,
    tables: Vec<SSTable>,
    writer: MmapWriter,
    active_gen: u64,
    threshold: usize,
    block_size: usize,
}

impl LsmStore {
    pub closed spec fn mem_view(&self) -> Seq<KvModel> {
        self.mem_table@
    }

    pub closed spec fn log_view(&self) -> Seq<u8> {
        self.writer.bytes@
    }

    /// The entry streams of the registered tables, newest first.
    pub closed spec fn tables_entries(&self) -> Seq<Seq<KvModel>> {
        Seq::new(self.tables@.len(), |i: int| self.tables@[i].entries())
    }

    pub closed spec fn store_wf(&self) -> bool {
        &&& self.mem_table.wf()
        &&& forall|i: int| 0 <= i < self.tables@.len() ==> (#[trigger] self.tables@[i]).wf()
        &&& wf_log(self.log_view())
        &&& replay_cmds(self.log_view()) is Some
        &&& forall|k: Seq<u8>|
            #[trigger] entries_lookup(self.mem_view(), k) == cmds_lookup(
                replay_cmds(self.log_view()).unwrap(),
                k,
            )
        &&& 1 <= self.block_size < 0xFFFF_FFFF
        &&& self.threshold <= 0x4000_0000
        &&& self.log_view().len() <= self.threshold + 0x0300_0000
        &&& self.mem_view().len() <= self.log_view().len()
    }

    pub open spec fn store_lookup(&self, k: Seq<u8>) -> Option<Seq<u8>> {
        match entries_lookup(self.mem_view(), k) {
            Some(x) => x,
            Option::None => tables_lookup(self.tables_entries(), k),
        }
    }

    /// A fresh, empty store with the given freeze threshold and block size.
    pub fn with_config(threshold: usize, block_size: usize) -> (r: LsmStore)
        requires
            1 <= block_size < 0xFFFF_FFFF,
            threshold <= 0x4000_0000,
        ensures
            r.store_wf(),
            forall|k: Seq<u8>| #[trigger] r.store_lookup(k) is None,
            r.log_view().len() == 0,
            r.tables_entries().len() == 0,
    {
        let r = LsmStore {
            mem_table: MemTable::new(),
            tables: Vec::new(),
            writer: MmapWriter::new(),
            active_gen: 0,
            threshold,
            block_size,
        };
        proof {
            assert(replay_cmds(r.log_view()) == Some(Seq::<CmdModel>::empty()));
            assert(r.tables_entries() =~= Seq::<Seq<KvModel>>::empty());
        }
        r
    }

    /// The byte image of the active log segment, as it would sit on disk;
    /// what the outer layers persist and hand back to `open`.
    pub fn log_bytes(&self) -> (r: Vec<u8>)
        ensures
            r@ == self.log_view(),
    {
        let mut out: Vec<u8> = Vec::new();
        crate::cmd::extend_bytes(&mut out, &self.writer.bytes);
        out
    }

    /// The generation of each registered table, newest first.
    pub closed spec fn table_gens(&self) -> Seq<u64> {
        Seq::new(self.tables@.len(), |i: int| self.tables@[i].gen_id())
    }

    pub fn tables_count(&self) -> (r: usize)
        ensures
            r == self.tables_entries().len(),
    {
        self.tables.len()
    }

    pub fn table_gen(&self, i: usize) -> (r: u64)
        requires
            i < self.tables_entries().len(),
        ensures
            r == self.table_gens()[i as int],
    {
        self.tables[i].gen()
    }

    /// The durable byte image of one registered table, for the outer layers
    /// to persist; decoding it under the table's generation rebuilds a table
    /// with the same entries.
    pub fn export_table(&self, i: usize) -> (r: Result<Vec<u8>, KvsError>)
        requires
            self.store_wf(),
            i < self.tables_entries().len(),
        ensures
            r matches Ok(bytes) ==> replay_cmds(bytes@) == Some(
                entry_cmds(self.tables_entries()[i as int]),
            ),
            entries_framable(self.tables_entries()[i as int]) && entries_image_size(
                self.tables_entries()[i as int],
            ) + 4 <= usize::MAX ==> r is Ok,
            r is Err ==> r == Err::<Vec<u8>, KvsError>(KvsError::IOError),
    {
        proof {
            assert(self.tables@[i as int].wf());
            assert(self.tables_entries()[i as int] == self.tables@[i as int].entries());
        }
        self.tables[i].encode()
    }

    /// Registers an already-built table as the oldest: what reopening a store
    /// from its persisted tables does.
    pub fn attach_table(&mut self, t: SSTable)
        requires
            old(self).store_wf(),
            t.wf(),
        ensures
            final(self).store_wf(),
            final(self).mem_view() == old(self).mem_view(),
            final(self).log_view() == old(self).log_view(),
            final(self).tables_entries() == old(self).tables_entries() + seq![t.entries()],
    {
        let ghost old_tables = self.tables@;
        self.tables.push(t);
        proof {
            assert(self.tables_entries() =~= old(self).tables_entries() + seq![t.entries()]) by {
                assert forall|i: int| 0 <= i < self.tables@.len() implies #[trigger] self.tables@[i]
                    == (if i < old_tables.len() {
                    old_tables[i]
                } else {
                    t
                }) by {
                }
            }
            assert forall|i: int| 0 <= i < self.tables@.len() implies (
            #[trigger] self.tables@[i]).wf() by {
                if i < old_tables.len() {
                    assert(self.tables@[i] == old_tables[i]);
                }
            }
        }
    }

    /// Freezes the buffer into a new table registered as the newest, and
    /// rotates to a fresh log segment. Every lookup is preserved. The
    /// generation counter saturates at its maximum rather than failing.
    fn freeze(&mut self)
        requires
            old(self).store_wf(),
        ensures
            final(self).store_wf(),
            forall|k: Seq<u8>|
                #[trigger] final(self).store_lookup(k) == old(self).store_lookup(k),
            final(self).log_view().len() == 0,
    {
        if self.mem_table.is_empty() {
            self.writer = MmapWriter::new();
            proof {
                assert(replay_cmds(self.log_view()) == Some(Seq::<CmdModel>::empty()));
                assert forall|k: Seq<u8>| #[trigger] entries_lookup(self.mem_view(), k)
                    == cmds_lookup(replay_cmds(self.log_view()).unwrap(), k) by {
                }
            }
            return ;
        }
        let ghost old_mem = self.mem_view();
        let ghost old_tables_entries = self.tables_entries();
        let ghost old_tables = self.tables@;
        let entries = self.mem_table.take_entries();
        let built = SSTable::create_for_mem_table(self.active_gen, &entries, self.block_size);
        match built {
            Err(_) => {
                proof {
                    assert(false);
                }
            },
            Ok(t) => {
                self.tables.insert(0, t);
                if self.active_gen < u64::MAX {
                    self.active_gen = self.active_gen + 1;
                }
                self.writer = MmapWriter::new();
                proof {
                    assert(t.entries() == old_mem);
                    assert(self.tables_entries() =~= seq![old_mem] + old_tables_entries) by {
                        assert forall|i: int| 0 <= i < self.tables@.len() implies
                            #[trigger] self.tables@[i] == (if i == 0 {
                            t
                        } else {
                            old_tables[i - 1]
                        }) by {
                        }
                    }
                    assert forall|i: int| 0 <= i < self.tables@.len() implies (
                    #[trigger] self.tables@[i]).wf() by {
                        if i > 0 {
                            assert(self.tables@[i] == old_tables[i - 1]);
                        }
                    }
                    assert(replay_cmds(self.log_view()) == Some(Seq::<CmdModel>::empty()));
                    assert forall|k: Seq<u8>|
                        #[trigger] final(self).store_lookup(k) == old(self).store_lookup(k) by {
                        assert(entries_lookup(self.mem_view(), k) is None);
                        assert((seq![old_mem] + old_tables_entries).skip(1)
                            =~= old_tables_entries);
                        assert(tables_lookup(self.tables_entries(), k) == (match entries_lookup(
                            old_mem,
                            k,
                        ) {
                            Some(x) => x,
                            Option::None => tables_lookup(old_tables_entries, k),
                        }));
                    }
                }
            },
        }
    }

    /// Appends a set or a remove to the log, then applies it to the buffer;
    /// the buffer is not touched unless the append happened.
    #[verifier::rlimit(100)]
    #[verifier::spinoff_prover]
    fn put(&mut self, key: Vec<u8>, value: Option<Vec<u8>>) -> (r: Result<(), KvsError>)
        requires
            old(self).store_wf(),
            key@.len() < 0x0100_0000,
            value is Some ==> value.unwrap()@.len() < 0x0100_0000,
        ensures
            final(self).store_wf(),
            r is Ok,
            final(self).store_lookup(key@) == value.deep_view(),
            forall|k: Seq<u8>|
                k != key@ ==> #[trigger] final(self).store_lookup(k) == old(self).store_lookup(k),
    {
        if self.writer.pos() >= self.threshold {
            self.freeze();
        }
        let ghost mid = *self;
        let cmd = match &value {
            Some(v) => CommandData::SetCmd { key: key.clone(), value: v.clone() },
            Option::None => CommandData::RemoveCmd { key: key.clone() },
        };
        let ghost log0 = self.log_view();
        let ghost cs0 = replay_cmds(log0).unwrap();
        proof {
            lemma_command_round_trip(cmd@);
            match cmd@ {
                CmdModel::SetCmd { key: k2, value: v2 } => {
                    assert(cmd_encoding(cmd@).len() == 9 + k2.len() + v2.len());
                },
                CmdModel::RemoveCmd { key: k2 } => {
                    assert(cmd_encoding(cmd@).len() == 5 + k2.len());
                },
                CmdModel::GetCmd { key: k2 } => {
                    assert(cmd_encoding(cmd@).len() == 5 + k2.len());
                },
            }
            lemma_replay_append(log0, 0, cmd_encoding(cmd@), cmd@);
        }
        let wrote = CommandPackage::write(&mut self.writer, &cmd);
        if let Err(e) = wrote {
            proof {
                assert(false);
            }
            return Err(e);
        }
        let ghost mem0 = self.mem_view();
        self.mem_table.insert(key, value);
        proof {
            let cs1 = replay_cmds(self.log_view()).unwrap();
            assert(cs1 == cs0 + seq![cmd@]);
            assert(cs1.last() == cmd@) by {
                assert((cs0 + seq![cmd@]).last() == cmd@);
            }
            assert(cs1.drop_last() =~= cs0);
            assert forall|k: Seq<u8>| #[trigger] entries_lookup(self.mem_view(), k) == cmds_lookup(
                cs1,
                k,
            ) by {
                if k == key@ {
                } else {
                    assert(entries_lookup(self.mem_view(), k) == entries_lookup(mem0, k));
                    assert(cmds_lookup(cs1, k) == cmds_lookup(cs0, k));
                }
            }
            assert forall|k: Seq<u8>|
                k != key@ implies #[trigger] final(self).store_lookup(k) == old(
                self,
            ).store_lookup(k) by {
                assert(entries_lookup(self.mem_view(), k) == entries_lookup(mid.mem_view(), k));
                assert(self.tables_entries() =~= mid.tables_entries());
                assert(mid.store_lookup(k) == old(self).store_lookup(k));
            }
            assert(self.tables_entries() =~= mid.tables_entries());
            assert(mid.store_lookup(key@) == old(self).store_lookup(key@));
        }
        Ok(())
    }

    /// Reads the buffer first, then each registered table from newest to
    /// oldest; a tombstone short-circuits to "not found".
    fn get_value(&self, key: &Vec<u8>) -> (r: Option<Vec<u8>>)
        requires
            self.store_wf(),
        ensures
            r.deep_view() == self.store_lookup(key@),
    {
        match self.mem_table.get(key) {
            Some(x) => x,
            Option::None => {
                let ghost ts = self.tables_entries();
                let n = self.tables.len();
                let mut i: usize = 0;
                proof {
                    assert(ts.skip(0) =~= ts);
                }
                while i < n
                    invariant
                        self.store_wf(),
                        ts == self.tables_entries(),
                        n == ts.len(),
                        i <= n,
                        entries_lookup(self.mem_view(), key@) is None,
                        tables_lookup(ts, key@) == tables_lookup(ts.skip(i as int), key@),
                    decreases n - i,
                {
                    proof {
                        assert(self.tables@[i as int].wf());
                        assert(ts.skip(i as int)[0] == ts[i as int]);
                        assert(ts[i as int] == self.tables@[i as int].entries());
                    }
                    let probe = self.tables[i].get(key);
                    match probe {
                        Some(x) => {
                            return x;
                        },
                        Option::None => {
                            proof {
                                assert(ts.skip(i as int).skip(1) =~= ts.skip(i + 1));
                            }
                            i += 1;
                        },
                    }
                }
                proof {
                    assert(ts.skip(n as int).len() == 0);
                }
                Option::None
            },
        }
    }
}

impl KVStore for LsmStore {
    open spec fn wf(&self) -> bool {
        self.store_wf()
    }

    open spec fn lookup(&self, key: Seq<u8>) -> Option<Seq<u8>> {
        self.store_lookup(key)
    }

    fn name() -> (r: &'static str) {
        "LsmStore"
    }

    #[verifier::rlimit(100)]
    #[verifier::spinoff_prover]
    fn open(segments: Vec<Vec<u8>>) -> (r: Result<Self, KvsError>) {
        let ghost segs = segments.deep_view();
        let mut store = LsmStore::with_config(DEFAULT_COMPACTION_THRESHOLD, DEFAULT_BLOCK_SIZE);
        let ghost mut acc: Seq<CmdModel> = Seq::empty();
        let mut i: usize = 0;
        proof {
            assert(segs.take(0) =~= Seq::<Seq<u8>>::empty());
            assert(segments_cmds(segs.take(0)) == Some(Seq::<CmdModel>::empty()));
        }
        while i < segments.len()
            invariant
                store.store_wf(),
                i <= segments@.len(),
                segs == segments.deep_view(),
                segs.len() == segments@.len(),
                segments_cmds(segs.take(i as int)) == Some(acc),
                cmds_sized(acc),
                forall|k: Seq<u8>|
                    #[trigger] store.store_lookup(k) == (match cmds_lookup(acc, k) {
                        Some(x) => x,
                        Option::None => Option::<Seq<u8>>::None,
                    }),
            decreases segments@.len() - i,
        {
            proof {
                assert(segs[i as int] == segments@[i as int].deep_view());
                assert(segments@[i as int].deep_view() =~= segments@[i as int]@);
                assert(segs[i as int] == segments@[i as int]@);
            }
            let scanned = CommandPackage::scan_records(&segments[i]);
            match scanned {
                Err(_) => {
                    proof {
                        lemma_segments_cmds_none(segs, i as int);
                    }
                    return Err(KvsError::DecodeError);
                },
                Ok((pkgs, _consumed)) => {
                    let ghost cs_i = pkg_cmds(pkgs@);
                    let m = pkgs.len();
                    let mut j: usize = 0;
                    proof {
                        assert(cs_i.take(0) =~= Seq::<CmdModel>::empty());
                        assert(acc + cs_i.take(0) =~= acc);
                    }
                    while j < m
                        invariant
                            store.store_wf(),
                            j <= m,
                            m == pkgs@.len(),
                            cs_i == pkg_cmds(pkgs@),
                            segs == segments.deep_view(),
                            i < segs.len(),
                            replay_cmds(segs[i as int]) == Some(cs_i),
                            segments_cmds(segs.take(i as int)) == Some(acc),
                            cmds_sized(acc + cs_i.take(j as int)),
                            forall|x: int| 0 <= x < pkgs@.len() ==> crate::cmd::cmd_wf(
                                #[trigger] pkgs@[x].cmd@,
                            ),
                            forall|k: Seq<u8>|
                                #[trigger] store.store_lookup(k) == (match cmds_lookup(
                                    acc + cs_i.take(j as int),
                                    k,
                                ) {
                                    Some(x) => x,
                                    Option::None => Option::<Seq<u8>>::None,
                                }),
                        decreases m - j,
                    {
                        let ghost done = acc + cs_i.take(j as int);
                        proof {
                            assert(cs_i[j as int] == pkgs@[j as int].cmd@);
                            assert(acc + cs_i.take(j + 1) =~= done + seq![cs_i[j as int]]);
                            assert((done + seq![cs_i[j as int]]).last() == cs_i[j as int]);
                            assert((done + seq![cs_i[j as int]]).drop_last() =~= done);
                        }
                        match &pkgs[j].cmd {
                            CommandData::SetCmd { key, value } => {
                                if key.len() >= 0x0100_0000 || value.len() >= 0x0100_0000 {
                                    proof {
                                        lemma_oversized_command(segs, i as int, acc, cs_i, j as int);
                                    }
                                    return Err(KvsError::DecodeError);
                                }
                                let _ = store.put(key.clone(), Some(value.clone()));
                            },
                            CommandData::RemoveCmd { key } => {
                                if key.len() >= 0x0100_0000 {
                                    proof {
                                        lemma_oversized_command(segs, i as int, acc, cs_i, j as int);
                                    }
                                    return Err(KvsError::DecodeError);
                                }
                                let _ = store.put(key.clone(), Option::None);
                            },
                            CommandData::GetCmd { .. } => {
                            },
                        }
                        proof {
                            assert forall|k: Seq<u8>| #[trigger] store.store_lookup(k) == (
                            match cmds_lookup(acc + cs_i.take(j + 1), k) {
                                Some(x) => x,
                                Option::None => Option::<Seq<u8>>::None,
                            }) by {
                                let cur = acc + cs_i.take(j + 1);
                                assert(cur.last() == cs_i[j as int]);
                                assert(cur.drop_last() == done);
                            }
                        }
                        j += 1;
                    }
                    proof {
                        assert(cs_i.take(m as int) =~= cs_i);
                        assert(segs.take(i + 1).drop_last() =~= segs.take(i as int));
                        assert(segs.take(i + 1).last() == segs[i as int]);
                        assert(segments_cmds(segs.take(i + 1)) == Some(acc + cs_i));
                        acc = acc + cs_i;
                    }
                },
            }
            i += 1;
        }
        proof {
            assert(segs.take(segments@.len() as int) =~= segs);
        }
        Ok(store)
    }

    fn flush(&mut self) -> (r: Result<(), KvsError>) {
        Ok(())
    }

    fn set(&mut self, key: &Vec<u8>, value: Vec<u8>) -> (r: Result<(), KvsError>) {
        self.put(key.clone(), Some(value))
    }

    fn get(&self, key: &Vec<u8>) -> (r: Result<Option<Vec<u8>>, KvsError>) {
        Ok(self.get_value(key))
    }

    fn remove(&mut self, key: &Vec<u8>) -> (r: Result<(), KvsError>) {
        self.put(key.clone(), Option::None)
    }

    fn shut_down(&mut self) -> (r: Result<(), KvsError>) {
        Ok(())
    }
}

/// Any two well-formed stores over the same durable state — the same log
/// bytes and the same table contents — answer every lookup identically:
/// closing and reopening a store preserves every read.
pub proof fn lemma_log_replay_equivalence(s1: LsmStore, s2: LsmStore, k: Seq<u8>)
    requires
        s1.store_wf(),
        s2.store_wf(),
        s1.log_view() == s2.log_view(),
        s1.tables_entries() == s2.tables_entries(),
    ensures
        s1.store_lookup(k) == s2.store_lookup(k),
{
    assert(entries_lookup(s1.mem_view(), k) == cmds_lookup(
        replay_cmds(s1.log_view()).unwrap(),
        k,
    ));
    assert(entries_lookup(s2.mem_view(), k) == cmds_lookup(
        replay_cmds(s2.log_view()).unwrap(),
        k,
    ));
}

/// A tombstone recorded in the buffer shadows any older value for the key,
/// even one still held by an older registered table.
pub proof fn lemma_tombstone_shadowing(s: LsmStore, k: Seq<u8>, i: int, v: Seq<u8>)
    requires
        s.store_wf(),
        entries_lookup(s.mem_view(), k) == Some(Option::<Seq<u8>>::None),
        0 <= i < s.tables_entries().len(),
        entries_lookup(s.tables_entries()[i], k) == Some(Some(v)),
    ensures
        s.store_lookup(k) is None,
{
}

/// The response and request shapes exchanged with the transport layer.
#[derive(Debug, Clone)]
pub enum CommandOption {
    /// No value: a write acknowledged, or a read that found nothing.
    Empty,
    Value(Vec<u8>),
    ValueVec(Vec<Option<Vec<u8>>>),
    SizeOfDisk(u64),
    /// A server-side failure, surfaced to the client as a typed error.
    Error(KvsError),
    Cmd(CommandData),
    VecCmd(Vec<CommandData>, bool),
}

impl CommandData {
    /// Runs this command against a store and shapes the typed response.
    pub fn apply<S: KVStore>(self, kv_store: &mut S) -> (r: Result<CommandOption, KvsError>)
        requires
            old(kv_store).wf(),
            match self@ {
                CmdModel::SetCmd { key, value } => key.len() < 0x0100_0000 && value.len()
                    < 0x0100_0000,
                CmdModel::RemoveCmd { key } => key.len() < 0x0100_0000,
                CmdModel::GetCmd { key } => true,
            },
        ensures
            final(kv_store).wf(),
            match self@ {
                CmdModel::SetCmd { key, value } => {
                    &&& r matches Ok(o) && o is Empty
                    &&& final(kv_store).lookup(key) == Some(value)
                    &&& forall|k: Seq<u8>|
                        k != key ==> #[trigger] final(kv_store).lookup(k) == old(
                            kv_store,
                        ).lookup(k)
                },
                CmdModel::RemoveCmd { key } => {
                    &&& r matches Ok(o) && o is Empty
                    &&& final(kv_store).lookup(key) is None
                    &&& forall|k: Seq<u8>|
                        k != key ==> #[trigger] final(kv_store).lookup(k) == old(
                            kv_store,
                        ).lookup(k)
                },
                CmdModel::GetCmd { key } => {
                    &&& r matches Ok(o) && (match old(kv_store).lookup(key) {
                        Some(v) => o matches CommandOption::Value(v2) && v2@ == v,
                        Option::None => o is Empty,
                    })
                    &&& forall|k: Seq<u8>|
                        #[trigger] final(kv_store).lookup(k) == old(kv_store).lookup(k)
                },
            },
    {
        match self {
            CommandData::SetCmd { key, value } => match kv_store.set(&key, value) {
                Ok(_) => Ok(CommandOption::Empty),
                Err(e) => Err(e),
            },
            CommandData::RemoveCmd { key } => match kv_store.remove(&key) {
                Ok(_) => Ok(CommandOption::Empty),
                Err(e) => Err(e),
            },
            CommandData::GetCmd { key } => match kv_store.get(&key) {
                Ok(option) => Ok(CommandOption::from_option(option)),
                Err(e) => Err(e),
            },
        }
    }
}

impl CommandOption {
    /// Wraps an optional value as the matching response shape.
    pub fn from_option(item: Option<Vec<u8>>) -> (r: CommandOption)
        ensures
            match item {
                Option::None => r is Empty,
                Some(vec) => (r matches CommandOption::Value(v2) && v2@ == vec@),
            },
    {
        match item {
            Option::None => CommandOption::Empty,
            Some(vec) => CommandOption::Value(vec),
        }
    }
}

/// The value a client reads out of a response to a get: a value, or the
/// empty response meaning the key is absent; any other shape is a protocol
/// mismatch.
pub fn value_from_option(opt: CommandOption) -> (r: Result<Option<Vec<u8>>, KvsError>)
    ensures
        match opt {
            CommandOption::Value(vec) => (r matches Ok(o) && o matches Some(v2) && v2@ == vec@),
            CommandOption::Empty => r == Ok::<Option<Vec<u8>>, KvsError>(Option::None),
            _ => r == Err::<Option<Vec<u8>>, KvsError>(KvsError::NotMatchCmd),
        },
{
    match opt {
        CommandOption::Value(vec) => Ok(Some(vec)),
        CommandOption::Empty => Ok(Option::None),
        _ => Err(KvsError::NotMatchCmd),
    }
}

/// The value list a client reads out of a response to a batch.
pub fn values_from_option(opt: CommandOption) -> (r: Result<Vec<Option<Vec<u8>>>, KvsError>)
    ensures
        match opt {
            CommandOption::ValueVec(vec) => (r matches Ok(o) && o == vec),
            _ => r == Err::<Vec<Option<Vec<u8>>>, KvsError>(KvsError::NotMatchCmd),
        },
{
    match opt {
        CommandOption::ValueVec(vec) => Ok(vec),
        _ => Err(KvsError::NotMatchCmd),
    }
}

/// The disk size a client reads out of a size-of-disk response.
pub fn size_from_option(opt: CommandOption) -> (r: Result<u64, KvsError>)
    ensures
        match opt {
            CommandOption::SizeOfDisk(n) => r == Ok::<u64, KvsError>(n),
            _ => r == Err::<u64, KvsError>(KvsError::NotMatchCmd),
        },
{
    match opt {
        CommandOption::SizeOfDisk(n) => Ok(n),
        _ => Err(KvsError::NotMatchCmd),
    }
}

} // verus!
