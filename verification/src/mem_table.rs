use vstd::prelude::*;

use crate::error::KvsError;
use crate::order::{key_cmp, lemma_lex_asym, lemma_lex_trans, lex_lt, KeyOrd};

verus! {

/// One key together with its value; `None` is a tombstone that shadows any
/// older value for the key until compaction.
#[derive(Debug)]
pub struct KvPair {
    pub key: Vec<u8>,
    pub value: Option<Vec<u8>>,
}

/// The model of an entry: a key and an optional value over byte sequences.
pub struct KvModel {
    pub key: Seq<u8>,
    pub value: Option<Seq<u8>>,
}

impl View for KvPair {
    type V = KvModel;

    open spec fn view(&self) -> KvModel {
        KvModel { key: self.key@, value: self.value.deep_view() }
    }
}

impl DeepView for KvPair {
    type V = KvModel;

    open spec fn deep_view(&self) -> KvModel {
        self@
    }
}

impl KvPair {
    /// A copy with the same key and value.
    pub fn duplicate(&self) -> (r: KvPair)
        ensures
            r@ == self@,
    {
        let value = match &self.value {
            Some(v) => Some(v.clone()),
            Option::None => Option::None,
        };
        KvPair { key: self.key.clone(), value }
    }
}

/// Key and value fit a 4-byte big-endian length prefix.
pub open spec fn kv_wf(e: KvModel) -> bool {
    e.key.len() < 0x1_0000_0000 && (e.value is Some ==> e.value.unwrap().len() < 0x1_0000_0000)
}

/// The entries are strictly ascending by key; keys are therefore unique.
pub open spec fn entries_sorted(s: Seq<KvModel>) -> bool {
    forall|i: int, j: int|
        0 <= i < j < s.len() ==> lex_lt(#[trigger] s[i].key, #[trigger] s[j].key)
}

pub open spec fn entries_wf(s: Seq<KvModel>) -> bool {
    forall|i: int| 0 <= i < s.len() ==> kv_wf(#[trigger] s[i])
}

/// The value recorded for `k`, if any: the first entry whose key matches.
pub open spec fn entries_lookup(s: Seq<KvModel>, k: Seq<u8>) -> Option<Option<Seq<u8>>>
    decreases s.len(),
{
    if s.len() == 0 {
        Option::None
    } else if s[0].key == k {
        Some(s[0].value)
    } else {
        entries_lookup(s.skip(1), k)
    }
}

pub proof fn lemma_lookup_found(s: Seq<KvModel>, k: Seq<u8>, i: int)
    requires
        entries_sorted(s),
        0 <= i < s.len(),
        s[i].key == k,
    ensures
        entries_lookup(s, k) == Some(s[i].value),
    decreases i,
{
    if i == 0 {
    } else {
        lemma_lex_asym(s[0].key, s[i].key);
        assert(s[0].key != k);
        assert(entries_sorted(s.skip(1))) by {
            assert forall|x: int, y: int| 0 <= x < y < s.skip(1).len() implies lex_lt(
                #[trigger] s.skip(1)[x].key,
                #[trigger] s.skip(1)[y].key,
            ) by {
                assert(s.skip(1)[x] == s[x + 1]);
                assert(s.skip(1)[y] == s[y + 1]);
            }
        }
        lemma_lookup_found(s.skip(1), k, i - 1);
    }
}

pub proof fn lemma_lookup_absent(s: Seq<KvModel>, k: Seq<u8>)
    requires
        forall|i: int| 0 <= i < s.len() ==> (#[trigger] s[i].key) != k,
    ensures
        entries_lookup(s, k) is None,
    decreases s.len(),
{
    if s.len() > 0 {
        assert forall|i: int| 0 <= i < s.skip(1).len() implies (#[trigger] s.skip(1)[i].key)
            != k by {
            assert(s.skip(1)[i] == s[i + 1]);
        }
        lemma_lookup_absent(s.skip(1), k);
    }
}

/// Sortedness restricted to a suffix.
pub proof fn lemma_sorted_skip(s: Seq<KvModel>, n: int)
    requires
        entries_sorted(s),
        0 <= n <= s.len(),
    ensures
        entries_sorted(s.skip(n)),
{
    assert forall|x: int, y: int| 0 <= x < y < s.skip(n).len() implies lex_lt(
        #[trigger] s.skip(n)[x].key,
        #[trigger] s.skip(n)[y].key,
    ) by {
        assert(s.skip(n)[x] == s[x + n]);
        assert(s.skip(n)[y] == s[y + n]);
    }
}

/// Inserting a fresh entry at its ordered position keeps the order.
pub proof fn lemma_insert_sorted(s: Seq<KvModel>, p: int, e: KvModel)
    requires
        entries_sorted(s),
        0 <= p <= s.len(),
        forall|j: int| 0 <= j < p ==> lex_lt(#[trigger] s[j].key, e.key),
        p < s.len() ==> lex_lt(e.key, s[p].key),
    ensures
        entries_sorted(s.insert(p, e)),
{
    let t = s.insert(p, e);
    assert forall|i: int, j: int| 0 <= i < j < t.len() implies lex_lt(
        #[trigger] t[i].key,
        #[trigger] t[j].key,
    ) by {
        if i < p && j < p {
        } else if i < p && j == p {
        } else if i < p && j > p {
            if p < s.len() && j - 1 > p {
                lemma_lex_trans(e.key, s[p].key, s[j - 1].key);
            }
            if i < p - 1 || p == j - 1 {
            }
            assert(t[j] == s[j - 1]);
        } else if i == p {
            if j - 1 > p {
                lemma_lex_trans(e.key, s[p].key, s[j - 1].key);
            }
        } else {
        }
    }
}

/// Inserting a fresh entry at its ordered position records its value and
/// leaves every other key's lookup unchanged.
pub proof fn lemma_insert_lookup(s: Seq<KvModel>, p: int, e: KvModel)
    requires
        entries_sorted(s),
        0 <= p <= s.len(),
        forall|j: int| 0 <= j < p ==> lex_lt(#[trigger] s[j].key, e.key),
        p < s.len() ==> lex_lt(e.key, s[p].key),
    ensures
        entries_lookup(s.insert(p, e), e.key) == Some(e.value),
        forall|k: Seq<u8>|
            k != e.key ==> #[trigger] entries_lookup(s.insert(p, e), k) == entries_lookup(s, k),
    decreases p,
{
    let t = s.insert(p, e);
    if p == 0 {
        assert(t[0] == e);
        assert(t.skip(1) =~= s);
        assert forall|k: Seq<u8>| k != e.key implies #[trigger] entries_lookup(t, k)
            == entries_lookup(s, k) by {
            assert(entries_lookup(t, k) == entries_lookup(t.skip(1), k));
        }
    } else {
        assert(t[0] == s[0]);
        lemma_lex_asym(s[0].key, e.key);
        assert(s[0].key != e.key);
        lemma_sorted_skip(s, 1);
        assert(t.skip(1) =~= s.skip(1).insert(p - 1, e)) by {
            assert forall|x: int| 0 <= x < t.skip(1).len() implies t.skip(1)[x] == s.skip(1).insert(
                p - 1,
                e,
            )[x] by {
                assert(t.skip(1)[x] == t[x + 1]);
            }
        }
        assert forall|j: int| 0 <= j < p - 1 implies lex_lt(#[trigger] s.skip(1)[j].key, e.key) by {
            assert(s.skip(1)[j] == s[j + 1]);
        }
        if p - 1 < s.skip(1).len() {
            assert(s.skip(1)[p - 1] == s[p]);
        }
        lemma_insert_lookup(s.skip(1), p - 1, e);
        assert(entries_lookup(t, e.key) == entries_lookup(t.skip(1), e.key));
        assert forall|k: Seq<u8>| k != e.key implies #[trigger] entries_lookup(t, k)
            == entries_lookup(s, k) by {
            if t[0].key == k {
            } else {
                assert(entries_lookup(t, k) == entries_lookup(t.skip(1), k));
                assert(entries_lookup(s, k) == entries_lookup(s.skip(1), k));
            }
        }
    }
}

/// Replacing the entry that already holds a key records the new value and
/// leaves every other key's lookup unchanged.
pub proof fn lemma_update_lookup(s: Seq<KvModel>, p: int, e: KvModel)
    requires
        entries_sorted(s),
        0 <= p < s.len(),
        s[p].key == e.key,
    ensures
        entries_sorted(s.update(p, e)),
        entries_lookup(s.update(p, e), e.key) == Some(e.value),
        forall|k: Seq<u8>|
            k != e.key ==> #[trigger] entries_lookup(s.update(p, e), k) == entries_lookup(s, k),
    decreases p,
{
    let t = s.update(p, e);
    assert(entries_sorted(t)) by {
        assert forall|i: int, j: int| 0 <= i < j < t.len() implies lex_lt(
            #[trigger] t[i].key,
            #[trigger] t[j].key,
        ) by {
            assert(t[i].key == s[i].key);
            assert(t[j].key == s[j].key);
        }
    }
    if p == 0 {
        assert(t[0] == e);
        assert(t.skip(1) =~= s.skip(1));
        assert forall|k: Seq<u8>| k != e.key implies #[trigger] entries_lookup(t, k)
            == entries_lookup(s, k) by {
            assert(entries_lookup(t, k) == entries_lookup(t.skip(1), k));
        }
    } else {
        assert(t[0] == s[0]);
        lemma_lex_asym(s[0].key, s[p].key);
        lemma_sorted_skip(s, 1);
        assert(t.skip(1) =~= s.skip(1).update(p - 1, e)) by {
            assert forall|x: int| 0 <= x < t.skip(1).len() implies t.skip(1)[x] == s.skip(1).update(
                p - 1,
                e,
            )[x] by {
                assert(t.skip(1)[x] == t[x + 1]);
            }
        }
        assert(s.skip(1)[p - 1] == s[p]);
        lemma_update_lookup(s.skip(1), p - 1, e);
        assert forall|k: Seq<u8>| k != e.key implies #[trigger] entries_lookup(t, k)
            == entries_lookup(s, k) by {
            if t[0].key == k {
            } else {
                assert(entries_lookup(t, k) == entries_lookup(t.skip(1), k));
                assert(entries_lookup(s, k) == entries_lookup(s.skip(1), k));
            }
        }
    }
}

/// The sorted, mutable in-memory buffer absorbing writes before they are
/// frozen into a table.
pub struct MemTable {
    entries: Vec<KvPair>,
}

impl View for MemTable {
    type V = Seq<KvModel>;

    closed spec fn view(&self) -> Seq<KvModel> {
        self.entries.deep_view()
    }
}

impl MemTable {
    pub open spec fn wf(&self) -> bool {
        entries_sorted(self@) && entries_wf(self@)
    }

    pub fn new() -> (r: MemTable)
        ensures
            r.wf(),
            r@.len() == 0,
    {
        MemTable { entries: Vec::new() }
    }

    pub fn len(&self) -> (r: usize)
        ensures
            r == self@.len(),
    {
        self.entries.len()
    }

    pub fn is_empty(&self) -> (r: bool)
        ensures
            r == (self@.len() == 0),
    {
        self.entries.len() == 0
    }

    /// Hands the sorted entries out and leaves the buffer empty, as when a
    /// frozen buffer is turned into a table.
    pub fn take_entries(&mut self) -> (r: Vec<KvPair>)
        ensures
            r.deep_view() == old(self)@,
            final(self)@.len() == 0,
            final(self).wf(),
    {
        let mut out: Vec<KvPair> = Vec::new();
        core::mem::swap(&mut out, &mut self.entries);
        out
    }

    /// Records `value` for `key`, replacing any older record.
    pub fn insert(&mut self, key: Vec<u8>, value: Option<Vec<u8>>)
        requires
            old(self).wf(),
            key@.len() < 0x1_0000_0000,
            value is Some ==> value.unwrap()@.len() < 0x1_0000_0000,
        ensures
            final(self).wf(),
            final(self)@.len() <= old(self)@.len() + 1,
            entries_lookup(final(self)@, key@) == Some(value.deep_view()),
            forall|k: Seq<u8>|
                k != key@ ==> #[trigger] entries_lookup(final(self)@, k) == entries_lookup(
                    old(self)@,
                    k,
                ),
    {
        let ghost s = self@;
        let ghost e = KvModel { key: key@, value: value.deep_view() };
        let mut i: usize = 0;
        let n = self.entries.len();
        while i < n
            invariant
                self@ == s,
                old(self)@ == s,
                entries_sorted(s),
                entries_wf(s),
                kv_wf(e),
                e == (KvModel { key: key@, value: value.deep_view() }),
                n == s.len(),
                i <= n,
                forall|j: int| 0 <= j < i ==> lex_lt(#[trigger] s[j].key, key@),
            decreases n - i,
        {
            match key_cmp(&self.entries[i].key, &key) {
                KeyOrd::Less => {
                    i += 1;
                },
                KeyOrd::Equal => {
                    let pair = KvPair { key, value };
                    proof {
                        assert(s[i as int].key == key@);
                        lemma_update_lookup(s, i as int, e);
                    }
                    self.entries.remove(i);
                    self.entries.insert(i, pair);
                    proof {
                        assert(self@ =~= s.update(i as int, e));
                        assert(entries_wf(self@)) by {
                            assert forall|x: int| 0 <= x < self@.len() implies kv_wf(
                                #[trigger] self@[x],
                            ) by {
                                if x != i {
                                    assert(self@[x] == s[x]);
                                }
                            }
                        }
                    }
                    return ;
                },
                KeyOrd::Greater => {
                    let pair = KvPair { key, value };
                    proof {
                        assert(lex_lt(key@, s[i as int].key));
                        lemma_insert_sorted(s, i as int, e);
                        lemma_insert_lookup(s, i as int, e);
                    }
                    self.entries.insert(i, pair);
                    proof {
                        assert(self@ =~= s.insert(i as int, e));
                        assert(entries_wf(self@)) by {
                            assert forall|x: int| 0 <= x < self@.len() implies kv_wf(
                                #[trigger] self@[x],
                            ) by {
                                if x < i {
                                    assert(self@[x] == s[x]);
                                } else if x > i {
                                    assert(self@[x] == s[x - 1]);
                                }
                            }
                        }
                    }
                    return ;
                },
            }
        }
        let pair = KvPair { key, value };
        proof {
            lemma_insert_sorted(s, n as int, e);
            lemma_insert_lookup(s, n as int, e);
        }
        self.entries.insert(n, pair);
        proof {
            assert(self@ =~= s.insert(n as int, e));
            assert(entries_wf(self@)) by {
                assert forall|x: int| 0 <= x < self@.len() implies kv_wf(#[trigger] self@[x]) by {
                    if x < n {
                        assert(self@[x] == s[x]);
                    }
                }
            }
        }
    }

    /// The record for `key`: `Some(Some(v))` a live value, `Some(None)` a
    /// tombstone, `None` no record at all.
    pub fn get(&self, key: &Vec<u8>) -> (r: Option<Option<Vec<u8>>>)
        requires
            self.wf(),
        ensures
            match r {
                Some(v) => entries_lookup(self@, key@) == Some(v.deep_view()),
                Option::None => entries_lookup(self@, key@) is None,
            },
    {
        let ghost s = self@;
        let mut i: usize = 0;
        let n = self.entries.len();
        while i < n
            invariant
                self@ == s,
                self.wf(),
                n == s.len(),
                i <= n,
                forall|j: int| 0 <= j < i ==> (#[trigger] s[j].key) != key@,
            decreases n - i,
        {
            match key_cmp(&self.entries[i].key, key) {
                KeyOrd::Less => {
                    i += 1;
                },
                KeyOrd::Equal => {
                    proof {
                        lemma_lookup_found(s, key@, i as int);
                    }
                    let value = match &self.entries[i].value {
                        Some(v) => Some(v.clone()),
                        Option::None => Option::None,
                    };
                    return Some(value);
                },
                KeyOrd::Greater => {
                    proof {
                        assert forall|j: int| 0 <= j < s.len() implies (#[trigger] s[j].key)
                            != key@ by {
                            if j > i {
                                lemma_lex_trans(key@, s[i as int].key, s[j].key);
                                lemma_lex_asym(key@, s[j].key);
                            } else if j == i {
                                lemma_lex_asym(key@, s[j].key);
                            }
                        }
                        lemma_lookup_absent(s, key@);
                    }
                    return Option::None;
                },
            }
        }
        proof {
            lemma_lookup_absent(s, key@);
        }
        Option::None
    }
}

} // verus!
