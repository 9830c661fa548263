use vstd::prelude::*;

use crate::cmd::{cmd_encoding, lemma_command_round_trip, CmdModel, CommandData};
use crate::error::KvsError;
use crate::log::{lemma_replay_append, replay_cmds, wf_log, CommandPackage, MmapWriter};
use crate::mem_table::{entries_sorted, entries_wf, kv_wf, KvModel, KvPair};
use crate::order::{
    key_cmp, lemma_lex_asym, lemma_lex_irrefl, lemma_lex_total, lemma_lex_trans, lex_le, lex_lt,
    KeyOrd,
};

verus! {

/// A seek target for a bidirectional disk cursor.
#[derive(Debug, Clone)]
pub enum Seek {
    /// The structure's first entry.
    First,
    /// The structure's last entry.
    Last,
    /// The first entry whose key is greater than or equal to the given key.
    Forward(Vec<u8>),
    /// The last entry whose key is less than or equal to the given key.
    Backward(Vec<u8>),
}

/// A locator for a data block inside its table: byte offset and length.
#[derive(Debug, Clone, Copy, PartialEq, Eq, Structural)]
pub struct BlockHandle {
    pub offset: u64,
    pub len: u64,
}

/// One index entry: the greatest key of a data block and that block's locator.
#[derive(Debug)]
pub struct IndexEntry {
    pub key: Vec<u8>,
    pub handle: BlockHandle,
}

/// The model of an index entry.
pub struct IndexModel {
    pub key: Seq<u8>,
    pub handle: BlockHandle,
}

impl View for IndexEntry {
    type V = IndexModel;

    open spec fn view(&self) -> IndexModel {
        IndexModel { key: self.key@, handle: self.handle }
    }
}

impl DeepView for IndexEntry {
    type V = IndexModel;

    open spec fn deep_view(&self) -> IndexModel {
        self@
    }
}

impl IndexEntry {
    pub fn duplicate(&self) -> (r: IndexEntry)
        ensures
            r@ == self@,
    {
        IndexEntry { key: self.key.clone(), handle: self.handle }
    }
}

/// The keys of a sequence of data entries, in order.
pub open spec fn keys_of(s: Seq<KvModel>) -> Seq<Seq<u8>> {
    s.map(|i: int, e: KvModel| e.key)
}

/// The keys of a sequence of index entries, in order.
pub open spec fn index_keys_of(s: Seq<IndexModel>) -> Seq<Seq<u8>> {
    s.map(|i: int, e: IndexModel| e.key)
}

pub open spec fn keys_sorted(keys: Seq<Seq<u8>>) -> bool {
    forall|i: int, j: int| 0 <= i < j < keys.len() ==> lex_lt(#[trigger] keys[i], #[trigger] keys[j])
}

/// The position of the first key greater than or equal to `k`, or the length
/// when there is none.
pub open spec fn first_geq(keys: Seq<Seq<u8>>, k: Seq<u8>) -> int
    decreases keys.len(),
{
    if keys.len() == 0 {
        0
    } else if lex_le(k, keys[0]) {
        0
    } else {
        1 + first_geq(keys.skip(1), k)
    }
}

/// The position of the first key strictly greater than `k`, or the length
/// when there is none.
pub open spec fn first_gt(keys: Seq<Seq<u8>>, k: Seq<u8>) -> int
    decreases keys.len(),
{
    if keys.len() == 0 {
        0
    } else if lex_lt(k, keys[0]) {
        0
    } else {
        1 + first_gt(keys.skip(1), k)
    }
}

pub proof fn lemma_first_geq_props(keys: Seq<Seq<u8>>, k: Seq<u8>)
    ensures
        0 <= first_geq(keys, k) <= keys.len(),
        first_geq(keys, k) < keys.len() ==> lex_le(k, keys[first_geq(keys, k)]),
        forall|j: int| 0 <= j < first_geq(keys, k) ==> lex_lt(#[trigger] keys[j], k),
    decreases keys.len(),
{
    if keys.len() == 0 {
    } else if lex_le(k, keys[0]) {
    } else {
        lemma_lex_total(k, keys[0]);
        lemma_first_geq_props(keys.skip(1), k);
        let f = first_geq(keys, k);
        if f < keys.len() {
            assert(keys.skip(1)[f - 1] == keys[f]);
        }
        assert forall|j: int| 0 <= j < f implies lex_lt(#[trigger] keys[j], k) by {
            if j > 0 {
                assert(keys.skip(1)[j - 1] == keys[j]);
            }
        }
    }
}

pub proof fn lemma_first_geq_unique(keys: Seq<Seq<u8>>, k: Seq<u8>, i: int)
    requires
        0 <= i <= keys.len(),
        i < keys.len() ==> lex_le(k, keys[i]),
        forall|j: int| 0 <= j < i ==> lex_lt(#[trigger] keys[j], k),
    ensures
        i == first_geq(keys, k),
{
    lemma_first_geq_props(keys, k);
    let f = first_geq(keys, k);
    if i < f {
        assert(lex_lt(keys[i], k));
        assert(lex_le(k, keys[i]));
        lemma_lex_irrefl(keys[i]);
        lemma_lex_asym(keys[i], k);
    } else if f < i {
        assert(lex_lt(keys[f], k));
        assert(lex_le(k, keys[f]));
        lemma_lex_irrefl(keys[f]);
        lemma_lex_asym(keys[f], k);
    }
}

pub proof fn lemma_first_gt_props(keys: Seq<Seq<u8>>, k: Seq<u8>)
    ensures
        0 <= first_gt(keys, k) <= keys.len(),
        first_gt(keys, k) < keys.len() ==> lex_lt(k, keys[first_gt(keys, k)]),
        forall|j: int| 0 <= j < first_gt(keys, k) ==> lex_le(#[trigger] keys[j], k),
    decreases keys.len(),
{
    if keys.len() == 0 {
    } else if lex_lt(k, keys[0]) {
    } else {
        lemma_lex_total(k, keys[0]);
        lemma_first_gt_props(keys.skip(1), k);
        let f = first_gt(keys, k);
        if f < keys.len() {
            assert(keys.skip(1)[f - 1] == keys[f]);
        }
        assert forall|j: int| 0 <= j < f implies lex_le(#[trigger] keys[j], k) by {
            if j > 0 {
                assert(keys.skip(1)[j - 1] == keys[j]);
            }
        }
    }
}

pub proof fn lemma_first_gt_unique(keys: Seq<Seq<u8>>, k: Seq<u8>, i: int)
    requires
        0 <= i <= keys.len(),
        i < keys.len() ==> lex_lt(k, keys[i]),
        forall|j: int| 0 <= j < i ==> lex_le(#[trigger] keys[j], k),
    ensures
        i == first_gt(keys, k),
{
    lemma_first_gt_props(keys, k);
    let f = first_gt(keys, k);
    if i < f {
        assert(lex_le(keys[i], k));
        assert(lex_lt(k, keys[i]));
        lemma_lex_irrefl(k);
        lemma_lex_asym(k, keys[i]);
    } else if f < i {
        assert(lex_le(keys[f], k));
        assert(lex_lt(k, keys[f]));
        lemma_lex_irrefl(k);
        lemma_lex_asym(k, keys[f]);
    }
}


/// Each entry as the command that records it: a set for a live value, a
/// remove for a tombstone.
pub open spec fn entry_cmds(s: Seq<KvModel>) -> Seq<CmdModel> {
    s.map(
        |i: int, e: KvModel|
            match e.value {
                Some(v) => CmdModel::SetCmd { key: e.key, value: v },
                Option::None => CmdModel::RemoveCmd { key: e.key },
            },
    )
}

/// The entries a command list stands for; a read command stands for nothing
/// and maps to a tombstone only formally.
pub open spec fn cmds_entries(cs: Seq<CmdModel>) -> Seq<KvModel> {
    cs.map(
        |i: int, c: CmdModel|
            match c {
                CmdModel::SetCmd { key, value } => KvModel { key, value: Some(value) },
                CmdModel::RemoveCmd { key } => KvModel { key, value: Option::None },
                CmdModel::GetCmd { key } => KvModel { key, value: Option::None },
            },
    )
}

/// A command list that stands for a block's entries exactly: nonempty,
/// bounded, sets and removes only, in strictly ascending key order.
pub open spec fn block_cmds_ok(cs: Seq<CmdModel>) -> bool {
    &&& 1 <= cs.len() < 0xFFFF_FFFF
    &&& forall|i: int| 0 <= i < cs.len() ==> !((#[trigger] cs[i]) is GetCmd)
    &&& entries_sorted(cmds_entries(cs))
}

/// The number of bytes the framed record stream of these entries takes.
pub open spec fn entries_image_size(s: Seq<KvModel>) -> int
    decreases s.len(),
{
    if s.len() == 0 {
        0
    } else {
        entry_record_size(s[0]) + entries_image_size(s.skip(1))
    }
}

/// Every record's payload fits the 4-byte length prefix.
pub open spec fn entries_framable(s: Seq<KvModel>) -> bool {
    forall|i: int| 0 <= i < s.len() ==> entry_record_size(#[trigger] s[i]) < 0x1_0000_0004
}

pub open spec fn entry_record_size(e: KvModel) -> int {
    match e.value {
        Some(v) => 13 + e.key.len() as int + v.len() as int,
        Option::None => 9 + e.key.len() as int,
    }
}

proof fn lemma_image_size_snoc(s: Seq<KvModel>, i: int)
    requires
        0 <= i < s.len(),
    ensures
        entries_image_size(s.take(i + 1)) == entries_image_size(s.take(i)) + entry_record_size(
            s[i],
        ),
    decreases i,
{
    if i == 0 {
        assert(s.take(1)[0] == s[0]);
        assert(s.take(1).skip(1) =~= Seq::<KvModel>::empty());
        assert(s.take(0) =~= Seq::<KvModel>::empty());
    } else {
        assert(s.take(i + 1)[0] == s[0]);
        assert(s.take(i + 1).skip(1) =~= s.skip(1).take(i));
        assert(s.take(i)[0] == s[0]);
        assert(s.take(i).skip(1) =~= s.skip(1).take(i - 1));
        assert(s.skip(1)[i - 1] == s[i]);
        lemma_image_size_snoc(s.skip(1), i - 1);
    }
}

proof fn lemma_image_size_nonneg(s: Seq<KvModel>)
    ensures
        entries_image_size(s) >= 0,
    decreases s.len(),
{
    if s.len() > 0 {
        lemma_image_size_nonneg(s.skip(1));
    }
}

proof fn lemma_image_size_mono(s: Seq<KvModel>, i: int)
    requires
        0 <= i <= s.len(),
    ensures
        0 <= entries_image_size(s.take(i)) <= entries_image_size(s),
    decreases s.len() - i,
{
    if i == s.len() {
        assert(s.take(i) =~= s);
        lemma_image_size_nonneg(s);
        lemma_image_size_nonneg(s.take(i));
    } else {
        lemma_image_size_snoc(s, i);
        lemma_image_size_mono(s, i + 1);
        lemma_image_size_nonneg(s.take(i));
    }
}

/// Encodes sorted entries as a framed record stream: one set or remove record
/// per entry, in entry order. Fails only when the image cannot fit in memory.
#[verifier::rlimit(100)]
#[verifier::spinoff_prover]
pub fn encode_kv_entries(entries: &Vec<KvPair>) -> (r: Result<Vec<u8>, KvsError>)
    requires
        entries_wf(entries.deep_view()),
    ensures
        r matches Ok(bytes) ==> wf_log(bytes@) && replay_cmds(bytes@) == Some(
            entry_cmds(entries.deep_view()),
        ) && bytes@.len() == entries_image_size(entries.deep_view()),
        entries_framable(entries.deep_view()) && entries_image_size(entries.deep_view()) + 4
            <= usize::MAX ==> r is Ok,
        r is Err ==> r == Err::<Vec<u8>, KvsError>(KvsError::IOError),
{
    let ghost dv = entries.deep_view();
    let mut wr = MmapWriter::new();
    let n = entries.len();
    let mut i: usize = 0;
    proof {
        assert(dv.take(0) =~= Seq::<KvModel>::empty());
        assert(entry_cmds(dv.take(0)) =~= Seq::<CmdModel>::empty());
        assert(replay_cmds(wr.bytes@) == Some(Seq::<CmdModel>::empty()));
    }
    while i < n
        invariant
            entries.deep_view() == dv,
            n == dv.len(),
            i <= n,
            entries_wf(dv),
            wf_log(wr.bytes@),
            replay_cmds(wr.bytes@) == Some(entry_cmds(dv.take(i as int))),
            wr.bytes@.len() == entries_image_size(dv.take(i as int)),
        decreases n - i,
    {
        proof {
            assert(dv[i as int] == entries@[i as int]@);
            assert(kv_wf(dv[i as int]));
        }
        let e = &entries[i];
        let cmd = match &e.value {
            Some(v) => {
                let c = CommandData::SetCmd { key: e.key.clone(), value: v.clone() };
                proof {
                    assert(dv[i as int].value == Some(v@));
                    assert(c@ == (CmdModel::SetCmd { key: dv[i as int].key, value: v@ }));
                }
                c
            },
            Option::None => {
                let c = CommandData::RemoveCmd { key: e.key.clone() };
                proof {
                    assert(dv[i as int].value is None);
                    assert(c@ == (CmdModel::RemoveCmd { key: dv[i as int].key }));
                }
                c
            },
        };
        proof {
            assert(cmd@ == (match dv[i as int].value {
                Some(v) => CmdModel::SetCmd { key: dv[i as int].key, value: v },
                Option::None => CmdModel::RemoveCmd { key: dv[i as int].key },
            }));
        }
        let need: u128 = match &e.value {
            Some(v) => 13u128 + e.key.len() as u128 + v.len() as u128,
            Option::None => 9u128 + e.key.len() as u128,
        };
        if need - 4 >= 0x1_0000_0000u128 {
            return Err(KvsError::IOError);
        }
        if (wr.bytes.len() as u128) + need + 4 > usize::MAX as u128 {
            proof {
                lemma_image_size_snoc(dv, i as int);
                lemma_image_size_mono(dv, i + 1);
            }
            return Err(KvsError::IOError);
        }
        let ghost log0 = wr.bytes@;
        proof {
            lemma_command_round_trip(cmd@);
            match cmd@ {
                CmdModel::SetCmd { key: k2, value: v2 } => {
                    assert(cmd_encoding(cmd@).len() == 9 + k2.len() + v2.len());
                },
                CmdModel::RemoveCmd { key: k2 } => {
                    assert(cmd_encoding(cmd@).len() == 5 + k2.len());
                },
                CmdModel::GetCmd { key: k2 } => {
                    assert(cmd_encoding(cmd@).len() == 5 + k2.len());
                },
            }
            lemma_replay_append(log0, 0, cmd_encoding(cmd@), cmd@);
        }
        let wrote = CommandPackage::write(&mut wr, &cmd);
        proof {
            if wrote is Err {
                assert(false);
            }
            lemma_image_size_snoc(dv, i as int);
            assert forall|x: int| 0 <= x < i + 1 implies #[trigger] entry_cmds(dv.take(i + 1))[x]
                == (entry_cmds(dv.take(i as int)) + seq![cmd@])[x] by {
                assert(dv.take(i + 1)[x] == dv[x]);
                if x < i {
                    assert(dv.take(i as int)[x] == dv[x]);
                    assert(entry_cmds(dv.take(i as int))[x] == (match dv[x].value {
                        Some(v) => CmdModel::SetCmd { key: dv[x].key, value: v },
                        Option::None => CmdModel::RemoveCmd { key: dv[x].key },
                    }));
                } else {
                    assert(entry_cmds(dv.take(i + 1))[x] == (match dv[x].value {
                        Some(v) => CmdModel::SetCmd { key: dv[x].key, value: v },
                        Option::None => CmdModel::RemoveCmd { key: dv[x].key },
                    }));
                    assert(dv[i as int] == entries@[i as int]@);
                    assert(entry_cmds(dv.take(i as int)).len() == i as int);
                }
            }
            assert(entry_cmds(dv.take(i + 1)) =~= entry_cmds(dv.take(i as int)) + seq![cmd@]);
        }
        i += 1;
    }
    proof {
        assert(dv.take(n as int) =~= dv);
    }
    Ok(wr.bytes)
}

/// Decodes a framed record stream back into sorted entries; fails on a
/// malformed record, a read command, an order violation, or an empty or
/// oversized stream.
#[verifier::rlimit(100)]
#[verifier::spinoff_prover]
pub fn decode_kv_entries(bytes: &Vec<u8>) -> (r: Result<Vec<KvPair>, KvsError>)
    ensures
        r matches Ok(v) ==> {
            &&& replay_cmds(bytes@) == Some(entry_cmds(v.deep_view()))
            &&& entries_sorted(v.deep_view())
            &&& entries_wf(v.deep_view())
            &&& 1 <= v.deep_view().len() < 0xFFFF_FFFF
        },
        r is Err ==> replay_cmds(bytes@) is None || !block_cmds_ok(replay_cmds(bytes@).unwrap()),
        replay_cmds(bytes@) matches Some(cs) && block_cmds_ok(cs) ==> r is Ok,
{
    let ghost rep = replay_cmds(bytes@);
    let scanned = CommandPackage::scan_records(bytes);
    match scanned {
        Err(_) => Err(KvsError::DecodeError),
        Ok((pkgs, _consumed)) => {
            let ghost cs = pkg_cmds_of(pkgs@);
            let m = pkgs.len();
            proof {
                assert(cs.len() == pkgs@.len());
            }
            if m == 0 || m >= 0xFFFF_FFFF {
                return Err(KvsError::DecodeError);
            }
            let mut out: Vec<KvPair> = Vec::new();
            let mut j: usize = 0;
            proof {
                assert(cs.take(0) =~= Seq::<CmdModel>::empty());
                assert(entry_cmds(out.deep_view()) =~= Seq::<CmdModel>::empty());
                assert(cmds_entries(cs.take(0)) =~= Seq::<KvModel>::empty());
            }
            while j < m
                invariant
                    j <= m,
                    m == pkgs@.len(),
                    1 <= m < 0xFFFF_FFFF,
                    cs == pkg_cmds_of(pkgs@),
                    replay_cmds(bytes@) == Some(cs),
                    out.deep_view() == cmds_entries(cs.take(j as int)),
                    out@.len() == j as int,
                    entries_sorted(out.deep_view()),
                    entries_wf(out.deep_view()),
                    forall|x: int| 0 <= x < j ==> !((#[trigger] cs[x]) is GetCmd),
                    forall|x: int| 0 <= x < pkgs@.len() ==> crate::cmd::cmd_wf(
                        #[trigger] pkgs@[x].cmd@,
                    ),
                decreases m - j,
            {
                let ghost prevd = out.deep_view();
                let ghost prevv = out@;
                proof {
                    assert(cs[j as int] == pkgs@[j as int].cmd@);
                }
                let pair = match &pkgs[j].cmd {
                    CommandData::SetCmd { key, value } => {
                        let p2 = KvPair { key: key.clone(), value: Some(value.clone()) };
                        proof {
                            assert(cs[j as int] == (CmdModel::SetCmd { key: key@, value: value@ }));
                            assert(p2.value.deep_view() =~~= Some(value@));
                            assert(p2@ == (KvModel { key: key@, value: Some(value@) }));
                        }
                        p2
                    },
                    CommandData::RemoveCmd { key } => {
                        let p2 = KvPair { key: key.clone(), value: Option::None };
                        proof {
                            assert(cs[j as int] == (CmdModel::RemoveCmd { key: key@ }));
                            assert(p2@ == (KvModel { key: key@, value: Option::<Seq<u8>>::None }));
                        }
                        p2
                    },
                    CommandData::GetCmd { .. } => {
                        proof {
                            assert(cs[j as int] is GetCmd);
                        }
                        return Err(KvsError::DecodeError);
                    },
                };
                proof {
                    assert(pair@ == (match cs[j as int] {
                        CmdModel::SetCmd { key, value } => KvModel { key, value: Some(value) },
                        CmdModel::RemoveCmd { key } => KvModel { key, value: Option::None },
                        CmdModel::GetCmd { key } => KvModel { key, value: Option::None },
                    }));
                }
                if j > 0 {
                    match key_cmp(&out[j - 1].key, &pair.key) {
                        KeyOrd::Less => {
                        },
                        ord => {
                            proof {
                                assert(prevd[j - 1] == cmds_entries(cs.take(j as int))[j - 1]);
                                assert(cs.take(j as int)[j - 1] == cs[j - 1]);
                                assert(cmds_entries(cs)[j - 1].key == prevd[j - 1].key);
                                assert(cmds_entries(cs)[j as int].key == pair@.key);
                                assert(prevd[j - 1].key == out@[j - 1]@.key);
                                assert(!lex_lt(prevd[j - 1].key, pair@.key)) by {
                                    if ord is Equal {
                                        lemma_lex_irrefl(prevd[j - 1].key);
                                    } else {
                                        lemma_lex_asym(pair@.key, prevd[j - 1].key);
                                    }
                                }
                                assert(!block_cmds_ok(cs)) by {
                                    if block_cmds_ok(cs) {
                                        assert(lex_lt(
                                            cmds_entries(cs)[j - 1].key,
                                            cmds_entries(cs)[j as int].key,
                                        ));
                                    }
                                }
                            }
                            return Err(KvsError::DecodeError);
                        },
                    }
                }
                out.push(pair);
                proof {
                    assert(out@ == prevv.push(pair));
                    assert forall|x: int| 0 <= x < j + 1 implies out.deep_view()[x] == cmds_entries(
                        cs.take(j + 1),
                    )[x] by {
                        assert(out.deep_view()[x] == out@[x].deep_view());
                        if x < j {
                            assert(out@[x] == prevv[x]);
                            assert(prevd[x] == prevv[x].deep_view());
                            assert(prevd[x] == cmds_entries(cs.take(j as int))[x]);
                        } else {
                            assert(out@[x] == pair);
                            assert(cs.take(j + 1)[x] == cs[x]);
                            assert(cmds_entries(cs.take(j + 1))[x] == (match cs[x] {
                                CmdModel::SetCmd { key, value } => KvModel {
                                    key,
                                    value: Some(value),
                                },
                                CmdModel::RemoveCmd { key } => KvModel {
                                    key,
                                    value: Option::None,
                                },
                                CmdModel::GetCmd { key } => KvModel {
                                    key,
                                    value: Option::None,
                                },
                            }));
                        }
                    }
                    assert(out.deep_view() =~~= cmds_entries(cs.take(j + 1)));
                    assert(entries_sorted(out.deep_view())) by {
                        assert forall|a: int, b: int|
                            0 <= a < b < out.deep_view().len() implies lex_lt(
                            #[trigger] out.deep_view()[a].key,
                            #[trigger] out.deep_view()[b].key,
                        ) by {
                            if b < j {
                                assert(out.deep_view()[a] == prevd[a]);
                                assert(out.deep_view()[b] == prevd[b]);
                            } else {
                                assert(out.deep_view()[b] == pair@);
                                if a < j - 1 {
                                    assert(out.deep_view()[a] == prevd[a]);
                                    assert(prevd[j - 1] == out.deep_view()[j - 1]);
                                    lemma_lex_trans(
                                        out.deep_view()[a].key,
                                        prevd[j - 1].key,
                                        pair@.key,
                                    );
                                } else {
                                    assert(out.deep_view()[a] == prevd[a]);
                                }
                            }
                        }
                    }
                    assert(entries_wf(out.deep_view())) by {
                        assert forall|x: int| 0 <= x < out.deep_view().len() implies kv_wf(
                            #[trigger] out.deep_view()[x],
                        ) by {
                            if x < j {
                                assert(out.deep_view()[x] == prevd[x]);
                            } else {
                                assert(out.deep_view()[x] == pair@);
                                assert(crate::cmd::cmd_wf(pkgs@[j as int].cmd@));
                            }
                        }
                    }
                }
                j += 1;
            }
            proof {
                assert(cs.take(m as int) =~= cs);
                assert(entry_cmds(cmds_entries(cs)) =~= cs) by {
                    assert forall|x: int| 0 <= x < cs.len() implies #[trigger] entry_cmds(
                        cmds_entries(cs),
                    )[x] == cs[x] by {
                        assert(cmds_entries(cs)[x].key == (match cs[x] {
                            CmdModel::SetCmd { key, .. } => key,
                            CmdModel::RemoveCmd { key } => key,
                            CmdModel::GetCmd { key } => key,
                        }));
                    }
                }
                assert(block_cmds_ok(cs));
            }
            Ok(out)
        },
    }
}

/// Entries survive the trip through their command form unchanged, and the
/// commands a table writes are never reads.
pub proof fn lemma_entry_cmds_inverse(s: Seq<KvModel>)
    ensures
        cmds_entries(entry_cmds(s)) == s,
        forall|i: int| 0 <= i < entry_cmds(s).len() ==> !((#[trigger] entry_cmds(s)[i]) is GetCmd),
{
    assert forall|x: int| 0 <= x < s.len() implies #[trigger] cmds_entries(entry_cmds(s))[x] == s[
        x
    ] by {
        assert(entry_cmds(s)[x] == (match s[x].value {
            Some(v) => CmdModel::SetCmd { key: s[x].key, value: v },
            Option::None => CmdModel::RemoveCmd { key: s[x].key },
        }));
    }
    assert(cmds_entries(entry_cmds(s)) =~= s);
}

/// The command views of a package list (a local alias for readability).
pub open spec fn pkg_cmds_of(v: Seq<CommandPackage>) -> Seq<CmdModel> {
    crate::log::pkg_cmds(v)
}

/// A bounded group of sorted key/value entries: the unit of disk I/O and of
/// caching.
#[derive(Debug)]
pub struct DataBlock {
    pub entries: Vec<KvPair>,
}

impl View for DataBlock {
    type V = Seq<KvModel>;

    open spec fn view(&self) -> Seq<KvModel> {
        self.entries.deep_view()
    }
}

/// A data block is nonempty, strictly sorted, and small enough to index.
pub open spec fn data_block_wf(s: Seq<KvModel>) -> bool {
    &&& 1 <= s.len() < 0xFFFF_FFFF
    &&& entries_sorted(s)
    &&& entries_wf(s)
}

impl DataBlock {
    pub fn duplicate(&self) -> (r: DataBlock)
        ensures
            r@ == self@,
    {
        let mut entries: Vec<KvPair> = Vec::new();
        let mut i: usize = 0;
        while i < self.entries.len()
            invariant
                i <= self.entries@.len(),
                self@.len() == self.entries@.len(),
                entries@.len() == i as int,
                entries.deep_view() == self@.take(i as int),
            decreases self.entries@.len() - i,
        {
            let pair = self.entries[i].duplicate();
            let ghost prevv = entries@;
            let ghost prevd = entries.deep_view();
            entries.push(pair);
            proof {
                assert(entries@ == prevv.push(pair));
                assert forall|j: int| 0 <= j < i + 1 implies entries.deep_view()[j] == self@.take(
                    i + 1,
                )[j] by {
                    assert(entries.deep_view()[j] == entries@[j].deep_view());
                    if j < i {
                        assert(entries@[j] == prevv.push(pair)[j]);
                        assert(prevv.push(pair)[j] == prevv[j]);
                        assert(prevd[j] == prevv[j].deep_view());
                        assert(prevd[j] == self@.take(i as int)[j]);
                    } else {
                        assert(entries@[j] == pair);
                    }
                    assert(self@.take(i + 1)[j] == self@[j]);
                    assert(self@[j] == self.entries@[j].deep_view());
                }
                assert(entries.deep_view() =~~= self@.take(i + 1));
            }
            i += 1;
        }
        proof {
            assert(self@.take(self@.len() as int) =~= self@);
        }
        DataBlock { entries }
    }

    pub fn len(&self) -> (r: usize)
        ensures
            r == self@.len(),
    {
        self.entries.len()
    }

    /// The block's byte image: one framed set or remove record per entry, in
    /// ascending key order.
    pub fn encode(&self) -> (r: Result<Vec<u8>, KvsError>)
        requires
            data_block_wf(self@),
        ensures
            r matches Ok(bytes) ==> wf_log(bytes@) && replay_cmds(bytes@) == Some(
                entry_cmds(self@),
            ),
            entries_framable(self@) && entries_image_size(self@) + 4 <= usize::MAX ==> r is Ok,
            r is Err ==> r == Err::<Vec<u8>, KvsError>(KvsError::IOError),
    {
        encode_kv_entries(&self.entries)
    }

    /// The block decoded back from its byte image; a malformed or unordered
    /// image is a fatal decode error.
    pub fn decode(bytes: &Vec<u8>) -> (r: Result<DataBlock, KvsError>)
        ensures
            r matches Ok(b) ==> data_block_wf(b@) && replay_cmds(bytes@) == Some(entry_cmds(b@)),
            r is Err ==> replay_cmds(bytes@) is None || !block_cmds_ok(
                replay_cmds(bytes@).unwrap(),
            ),
            replay_cmds(bytes@) matches Some(cs) && block_cmds_ok(cs) ==> r is Ok,
    {
        let entries = decode_kv_entries(bytes)?;
        Ok(DataBlock { entries })
    }
}

/// A block of index entries mapping each data block's greatest key to its
/// locator.
#[derive(Debug)]
pub struct IndexBlock {
    pub entries: Vec<IndexEntry>,
}

impl View for IndexBlock {
    type V = Seq<IndexModel>;

    open spec fn view(&self) -> Seq<IndexModel> {
        self.entries.deep_view()
    }
}

pub open spec fn index_block_wf(s: Seq<IndexModel>) -> bool {
    &&& 1 <= s.len() < 0xFFFF_FFFF
    &&& keys_sorted(index_keys_of(s))
}

impl IndexBlock {
    pub fn duplicate(&self) -> (r: IndexBlock)
        ensures
            r@ == self@,
    {
        let mut entries: Vec<IndexEntry> = Vec::new();
        let mut i: usize = 0;
        while i < self.entries.len()
            invariant
                i <= self.entries@.len(),
                self@.len() == self.entries@.len(),
                entries@.len() == i as int,
                entries.deep_view() == self@.take(i as int),
            decreases self.entries@.len() - i,
        {
            let pair = self.entries[i].duplicate();
            let ghost prevv = entries@;
            let ghost prevd = entries.deep_view();
            entries.push(pair);
            proof {
                assert(entries@ == prevv.push(pair));
                assert forall|j: int| 0 <= j < i + 1 implies entries.deep_view()[j] == self@.take(
                    i + 1,
                )[j] by {
                    assert(entries.deep_view()[j] == entries@[j].deep_view());
                    if j < i {
                        assert(entries@[j] == prevv.push(pair)[j]);
                        assert(prevv.push(pair)[j] == prevv[j]);
                        assert(prevd[j] == prevv[j].deep_view());
                        assert(prevd[j] == self@.take(i as int)[j]);
                    } else {
                        assert(entries@[j] == pair);
                    }
                    assert(self@.take(i + 1)[j] == self@[j]);
                    assert(self@[j] == self.entries@[j].deep_view());
                }
                assert(entries.deep_view() =~~= self@.take(i + 1));
            }
            i += 1;
        }
        proof {
            assert(self@.take(self@.len() as int) =~= self@);
        }
        IndexBlock { entries }
    }

    pub fn len(&self) -> (r: usize)
        ensures
            r == self@.len(),
    {
        self.entries.len()
    }
}

/// A bidirectional cursor over one data block. The cursor either designates
/// an entry or sits just before the first or just after the last one.
pub struct BlockIter {
    block: DataBlock,
    at: usize,
}

impl BlockIter {
    pub closed spec fn entries(&self) -> Seq<KvModel> {
        self.block@
    }

    /// The designated entry's position; `-1` before the first entry, the
    /// entry count after the last.
    pub closed spec fn pos(&self) -> int {
        self.at as int - 1
    }

    pub closed spec fn wf(&self) -> bool {
        &&& data_block_wf(self.block@)
        &&& self.at <= self.block@.len() + 1
    }

    pub fn new(block: DataBlock) -> (r: BlockIter)
        requires
            data_block_wf(block@),
        ensures
            r.wf(),
            r.entries() == block@,
            r.pos() == -1,
    {
        BlockIter { block, at: 0 }
    }

    pub fn is_valid(&self) -> (r: bool)
        requires
            self.wf(),
        ensures
            r == (0 <= self.pos() < self.entries().len()),
    {
        1 <= self.at && self.at <= self.block.entries.len()
    }

    /// Advances to and returns the next entry in ascending key order.
    pub fn next_err(&mut self) -> (r: Result<KvPair, KvsError>)
        requires
            old(self).wf(),
        ensures
            final(self).wf(),
            final(self).entries() == old(self).entries(),
            old(self).pos() < old(self).entries().len() - 1 ==> {
                &&& r matches Ok(e) && e@ == old(self).entries()[old(self).pos() + 1]
                &&& final(self).pos() == old(self).pos() + 1
            },
            old(self).pos() >= old(self).entries().len() - 1 ==> r == Err::<KvPair, KvsError>(
                KvsError::OutOfBounds,
            ) && final(self).pos() == old(self).entries().len(),
    {
        let n = self.block.entries.len();
        if self.at >= n {
            self.at = n + 1;
            Err(KvsError::OutOfBounds)
        } else {
            self.at = self.at + 1;
            Ok(self.block.entries[self.at - 1].duplicate())
        }
    }

    /// Advances to and returns the next entry in descending key order.
    pub fn prev_err(&mut self) -> (r: Result<KvPair, KvsError>)
        requires
            old(self).wf(),
        ensures
            final(self).wf(),
            final(self).entries() == old(self).entries(),
            old(self).pos() > 0 ==> {
                &&& r matches Ok(e) && e@ == old(self).entries()[old(self).pos() - 1]
                &&& final(self).pos() == old(self).pos() - 1
            },
            old(self).pos() <= 0 ==> r == Err::<KvPair, KvsError>(KvsError::OutOfBounds)
                && final(self).pos() == -1,
    {
        if self.at <= 1 {
            self.at = 0;
            Err(KvsError::OutOfBounds)
        } else {
            self.at = self.at - 1;
            Ok(self.block.entries[self.at - 1].duplicate())
        }
    }

    /// Moves the cursor to the sought entry and returns it.
    pub fn seek(&mut self, seek: &Seek) -> (r: Result<KvPair, KvsError>)
        requires
            old(self).wf(),
        ensures
            final(self).wf(),
            final(self).entries() == old(self).entries(),
            ({
                let s = old(self).entries();
                let n = s.len() as int;
                match seek {
                    Seek::First => (r matches Ok(e) && e@ == s[0] && final(self).pos() == 0),
                    Seek::Last => (r matches Ok(e) && e@ == s[n - 1] && final(self).pos() == n - 1),
                    Seek::Forward(k) => {
                        let m = first_geq(keys_of(s), k@);
                        &&& m < n ==> (r matches Ok(e) && e@ == s[m] && final(self).pos() == m)
                        &&& m == n ==> r == Err::<KvPair, KvsError>(KvsError::OutOfBounds)
                            && final(self).pos() == n
                    },
                    Seek::Backward(k) => {
                        let m = first_gt(keys_of(s), k@) - 1;
                        &&& m >= 0 ==> (r matches Ok(e) && e@ == s[m] && final(self).pos() == m)
                        &&& m < 0 ==> r == Err::<KvPair, KvsError>(KvsError::OutOfBounds)
                            && final(self).pos() == -1
                    },
                }
            }),
    {
        let ghost s = self.block@;
        let n = self.block.entries.len();
        match seek {
            Seek::First => {
                self.at = 1;
                Ok(self.block.entries[0].duplicate())
            },
            Seek::Last => {
                self.at = n;
                Ok(self.block.entries[n - 1].duplicate())
            },
            Seek::Forward(k) => {
                let mut i: usize = 0;
                while i < n
                    invariant
                        self.block@ == s,
                        old(self).entries() == s,
                        seek matches Seek::Forward(kk) && kk@ == k@,
                        data_block_wf(s),
                        n == s.len(),
                        i <= n,
                        forall|j: int| 0 <= j < i ==> lex_lt(#[trigger] keys_of(s)[j], k@),
                    decreases n - i,
                {
                    match key_cmp(k, &self.block.entries[i].key) {
                        KeyOrd::Greater => {
                            proof {
                                assert(keys_of(s)[i as int] == s[i as int].key);
                            }
                            i += 1;
                        },
                        _ => {
                            proof {
                                assert(keys_of(s)[i as int] == s[i as int].key);
                                lemma_first_geq_unique(keys_of(s), k@, i as int);
                            }
                            self.at = i + 1;
                            return Ok(self.block.entries[i].duplicate());
                        },
                    }
                }
                proof {
                    lemma_first_geq_unique(keys_of(s), k@, n as int);
                }
                self.at = n + 1;
                Err(KvsError::OutOfBounds)
            },
            Seek::Backward(k) => {
                let mut i: usize = 0;
                while i < n
                    invariant
                        self.block@ == s,
                        old(self).entries() == s,
                        seek matches Seek::Backward(kk) && kk@ == k@,
                        data_block_wf(s),
                        n == s.len(),
                        i <= n,
                        forall|j: int| 0 <= j < i ==> lex_le(#[trigger] keys_of(s)[j], k@),
                    decreases n - i,
                {
                    match key_cmp(k, &self.block.entries[i].key) {
                        KeyOrd::Less => {
                            proof {
                                assert(keys_of(s)[i as int] == s[i as int].key);
                                lemma_first_gt_unique(keys_of(s), k@, i as int);
                            }
                            if i == 0 {
                                self.at = 0;
                                return Err(KvsError::OutOfBounds);
                            }
                            self.at = i;
                            return Ok(self.block.entries[i - 1].duplicate());
                        },
                        _ => {
                            proof {
                                assert(keys_of(s)[i as int] == s[i as int].key);
                            }
                            i += 1;
                        },
                    }
                }
                proof {
                    lemma_first_gt_unique(keys_of(s), k@, n as int);
                }
                self.at = n;
                Ok(self.block.entries[n - 1].duplicate())
            },
        }
    }
}

/// A bidirectional cursor over a table's index block.
pub struct IndexIter {
    block: IndexBlock,
    at: usize,
}

impl IndexIter {
    pub closed spec fn entries(&self) -> Seq<IndexModel> {
        self.block@
    }

    pub closed spec fn pos(&self) -> int {
        self.at as int - 1
    }

    pub closed spec fn wf(&self) -> bool {
        &&& index_block_wf(self.block@)
        &&& self.at <= self.block@.len() + 1
    }

    pub fn new(block: IndexBlock) -> (r: IndexIter)
        requires
            index_block_wf(block@),
        ensures
            r.wf(),
            r.entries() == block@,
            r.pos() == -1,
    {
        IndexIter { block, at: 0 }
    }

    pub fn is_valid(&self) -> (r: bool)
        requires
            self.wf(),
        ensures
            r == (0 <= self.pos() < self.entries().len()),
    {
        1 <= self.at && self.at <= self.block.entries.len()
    }

    pub fn before_first(&self) -> (r: bool)
        requires
            self.wf(),
        ensures
            r == (self.pos() == -1),
    {
        self.at == 0
    }

    pub fn past_last(&self) -> (r: bool)
        requires
            self.wf(),
        ensures
            r == (self.pos() == self.entries().len()),
    {
        self.at == self.block.entries.len() + 1
    }

    pub fn next_err(&mut self) -> (r: Result<IndexEntry, KvsError>)
        requires
            old(self).wf(),
        ensures
            final(self).wf(),
            final(self).entries() == old(self).entries(),
            old(self).pos() < old(self).entries().len() - 1 ==> {
                &&& r matches Ok(e) && e@ == old(self).entries()[old(self).pos() + 1]
                &&& final(self).pos() == old(self).pos() + 1
            },
            old(self).pos() >= old(self).entries().len() - 1 ==> r == Err::<IndexEntry, KvsError>(
                KvsError::OutOfBounds,
            ) && final(self).pos() == old(self).entries().len(),
    {
        let n = self.block.entries.len();
        if self.at >= n {
            self.at = n + 1;
            Err(KvsError::OutOfBounds)
        } else {
            self.at = self.at + 1;
            Ok(self.block.entries[self.at - 1].duplicate())
        }
    }

    pub fn prev_err(&mut self) -> (r: Result<IndexEntry, KvsError>)
        requires
            old(self).wf(),
        ensures
            final(self).wf(),
            final(self).entries() == old(self).entries(),
            old(self).pos() > 0 ==> {
                &&& r matches Ok(e) && e@ == old(self).entries()[old(self).pos() - 1]
                &&& final(self).pos() == old(self).pos() - 1
            },
            old(self).pos() <= 0 ==> r == Err::<IndexEntry, KvsError>(KvsError::OutOfBounds)
                && final(self).pos() == -1,
    {
        if self.at <= 1 {
            self.at = 0;
            Err(KvsError::OutOfBounds)
        } else {
            self.at = self.at - 1;
            Ok(self.block.entries[self.at - 1].duplicate())
        }
    }

    pub fn seek_first(&mut self) -> (r: IndexEntry)
        requires
            old(self).wf(),
        ensures
            final(self).wf(),
            final(self).entries() == old(self).entries(),
            r@ == old(self).entries()[0],
            final(self).pos() == 0,
    {
        self.at = 1;
        self.block.entries[0].duplicate()
    }

    pub fn seek_last(&mut self) -> (r: IndexEntry)
        requires
            old(self).wf(),
        ensures
            final(self).wf(),
            final(self).entries() == old(self).entries(),
            r@ == old(self).entries()[old(self).entries().len() - 1],
            final(self).pos() == old(self).entries().len() - 1,
    {
        let n = self.block.entries.len();
        self.at = n;
        self.block.entries[n - 1].duplicate()
    }

    /// Positions at the first index entry whose key is greater than or equal
    /// to `k`: the first block that may hold a key greater than or equal to
    /// `k`.
    pub fn seek_forward(&mut self, k: &Vec<u8>) -> (r: Result<IndexEntry, KvsError>)
        requires
            old(self).wf(),
        ensures
            final(self).wf(),
            final(self).entries() == old(self).entries(),
            ({
                let s = old(self).entries();
                let n = s.len() as int;
                let m = first_geq(index_keys_of(s), k@);
                &&& m < n ==> (r matches Ok(e) && e@ == s[m] && final(self).pos() == m)
                &&& m == n ==> r == Err::<IndexEntry, KvsError>(KvsError::OutOfBounds)
                    && final(self).pos() == n
            }),
    {
        let ghost s = self.block@;
        let n = self.block.entries.len();
        let mut i: usize = 0;
        while i < n
            invariant
                self.block@ == s,
                old(self).entries() == s,
                index_block_wf(s),
                n == s.len(),
                i <= n,
                forall|j: int| 0 <= j < i ==> lex_lt(#[trigger] index_keys_of(s)[j], k@),
            decreases n - i,
        {
            match key_cmp(k, &self.block.entries[i].key) {
                KeyOrd::Greater => {
                    proof {
                        assert(index_keys_of(s)[i as int] == s[i as int].key);
                    }
                    i += 1;
                },
                _ => {
                    proof {
                        assert(index_keys_of(s)[i as int] == s[i as int].key);
                        lemma_first_geq_unique(index_keys_of(s), k@, i as int);
                    }
                    self.at = i + 1;
                    return Ok(self.block.entries[i].duplicate());
                },
            }
        }
        proof {
            lemma_first_geq_unique(index_keys_of(s), k@, n as int);
        }
        self.at = n + 1;
        Err(KvsError::OutOfBounds)
    }
}

} // verus!
