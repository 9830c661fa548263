use vstd::prelude::*;

verus! {

/// Strict unsigned byte-lexicographic order on key byte strings.
pub open spec fn lex_lt(a: Seq<u8>, b: Seq<u8>) -> bool
    decreases a.len(),
{
    if b.len() == 0 {
        false
    } else if a.len() == 0 {
        true
    } else if a[0] < b[0] {
        true
    } else if a[0] == b[0] {
        lex_lt(a.skip(1), b.skip(1))
    } else {
        false
    }
}

pub open spec fn lex_le(a: Seq<u8>, b: Seq<u8>) -> bool {
    lex_lt(a, b) || a == b
}

/// Two sequences with equal heads and equal tails are equal.
proof fn lemma_head_tail_eq(a: Seq<u8>, b: Seq<u8>)
    requires
        a.len() > 0,
        b.len() > 0,
        a[0] == b[0],
        a.skip(1) == b.skip(1),
    ensures
        a == b,
{
    assert(a.len() == b.len()) by {
        assert(a.skip(1).len() == a.len() - 1);
        assert(b.skip(1).len() == b.len() - 1);
    }
    assert forall|j: int| 0 <= j < a.len() implies a[j] == b[j] by {
        if j > 0 {
            assert(a.skip(1)[j - 1] == a[j]);
            assert(b.skip(1)[j - 1] == b[j]);
        }
    }
    assert(a =~= b);
}

pub proof fn lemma_lex_irrefl(a: Seq<u8>)
    ensures
        !lex_lt(a, a),
    decreases a.len(),
{
    if a.len() > 0 {
        lemma_lex_irrefl(a.skip(1));
    }
}

/// The order is total: two keys that are not equal compare strictly one way.
pub proof fn lemma_lex_total(a: Seq<u8>, b: Seq<u8>)
    ensures
        lex_lt(a, b) || lex_lt(b, a) || a == b,
    decreases a.len(),
{
    if b.len() == 0 {
        if a.len() == 0 {
            assert(a =~= b);
        }
    } else if a.len() == 0 {
    } else if a[0] == b[0] {
        lemma_lex_total(a.skip(1), b.skip(1));
        if a.skip(1) == b.skip(1) {
            lemma_head_tail_eq(a, b);
        }
    }
}

/// The order is asymmetric and irreflexive.
pub proof fn lemma_lex_asym(a: Seq<u8>, b: Seq<u8>)
    ensures
        lex_lt(a, b) ==> !lex_lt(b, a),
        lex_lt(a, b) ==> a != b,
    decreases a.len(),
{
    lemma_lex_irrefl(a);
    if a.len() > 0 && b.len() > 0 && a[0] == b[0] {
        lemma_lex_asym(a.skip(1), b.skip(1));
        if lex_lt(a, b) && a == b {
            assert(a.skip(1) == b.skip(1));
        }
    }
}

pub proof fn lemma_lex_trans(a: Seq<u8>, b: Seq<u8>, c: Seq<u8>)
    requires
        lex_lt(a, b),
        lex_lt(b, c),
    ensures
        lex_lt(a, c),
    decreases a.len() + b.len() + c.len(),
{
    if b.len() == 0 {
    } else if c.len() == 0 {
    } else if a.len() == 0 {
    } else {
        if a[0] == b[0] && b[0] == c[0] {
            lemma_lex_trans(a.skip(1), b.skip(1), c.skip(1));
        }
    }
}

/// An equal proper prefix does not decide the comparison.
pub proof fn lemma_lex_skip(a: Seq<u8>, b: Seq<u8>, i: int)
    requires
        0 <= i <= a.len(),
        0 <= i <= b.len(),
        a.take(i) == b.take(i),
    ensures
        lex_lt(a, b) == lex_lt(a.skip(i), b.skip(i)),
        (a == b) == (a.skip(i) == b.skip(i)),
    decreases i,
{
    if i == 0 {
        assert(a.skip(0) =~= a);
        assert(b.skip(0) =~= b);
    } else {
        assert(a[0] == b[0]) by {
            assert(a.take(i)[0] == a[0]);
            assert(b.take(i)[0] == b[0]);
        }
        assert(a.skip(1).take(i - 1) =~= b.skip(1).take(i - 1)) by {
            assert forall|j: int| 0 <= j < i - 1 implies
                #[trigger] a.skip(1).take(i - 1)[j] == b.skip(1).take(i - 1)[j] by {
                assert(a.take(i)[j + 1] == b.take(i)[j + 1]);
                assert(a.take(i)[j + 1] == a[j + 1]);
                assert(b.take(i)[j + 1] == b[j + 1]);
                assert(a.skip(1)[j] == a[j + 1]);
                assert(b.skip(1)[j] == b[j + 1]);
                assert(a.skip(1).take(i - 1)[j] == a.skip(1)[j]);
                assert(b.skip(1).take(i - 1)[j] == b.skip(1)[j]);
            }
        }
        lemma_lex_skip(a.skip(1), b.skip(1), i - 1);
        assert(a.skip(1).skip(i - 1) =~= a.skip(i));
        assert(b.skip(1).skip(i - 1) =~= b.skip(i));
        if a.skip(1) == b.skip(1) {
            lemma_head_tail_eq(a, b);
        }
        if a == b {
            assert(a.skip(1) =~= b.skip(1));
        }
    }
}

/// The result of a three-way key comparison.
#[derive(Clone, Copy, PartialEq, Eq, Structural, Debug)]
pub enum KeyOrd {
    Less,
    Equal,
    Greater,
}

/// Three-way byte-lexicographic comparison of two keys.
pub fn key_cmp(a: &Vec<u8>, b: &Vec<u8>) -> (r: KeyOrd)
    ensures
        (r == KeyOrd::Less) == lex_lt(a@, b@),
        (r == KeyOrd::Equal) == (a@ == b@),
        (r == KeyOrd::Greater) == lex_lt(b@, a@),
{
    proof {
        lemma_lex_total(a@, b@);
        lemma_lex_asym(a@, b@);
        lemma_lex_asym(b@, a@);
        assert(a@.take(0) =~= b@.take(0));
    }
    let n = if a.len() < b.len() {
        a.len()
    } else {
        b.len()
    };
    let mut i: usize = 0;
    while i < n
        invariant
            i <= n,
            n <= a@.len(),
            n <= b@.len(),
            n == a@.len() || n == b@.len(),
            a@.take(i as int) == b@.take(i as int),
            lex_lt(a@, b@) || lex_lt(b@, a@) || a@ == b@,
            lex_lt(a@, b@) ==> !lex_lt(b@, a@) && a@ != b@,
            lex_lt(b@, a@) ==> !lex_lt(a@, b@) && b@ != a@,
        decreases n - i,
    {
        let x = a[i];
        let y = b[i];
        if x < y {
            proof {
                lemma_lex_skip(a@, b@, i as int);
                assert(a@.skip(i as int)[0] == a@[i as int]);
                assert(b@.skip(i as int)[0] == b@[i as int]);
                assert(lex_lt(a@.skip(i as int), b@.skip(i as int)));
            }
            return KeyOrd::Less;
        }
        if x > y {
            proof {
                lemma_lex_skip(b@, a@, i as int);
                assert(b@.skip(i as int)[0] == b@[i as int]);
                assert(a@.skip(i as int)[0] == a@[i as int]);
                assert(lex_lt(b@.skip(i as int), a@.skip(i as int)));
            }
            return KeyOrd::Greater;
        }
        proof {
            assert(a@.take(i + 1) =~= b@.take(i + 1)) by {
                assert forall|j: int| 0 <= j < i + 1 implies
                    #[trigger] a@.take(i + 1)[j] == b@.take(i + 1)[j] by {
                    if j < i {
                        assert(a@.take(i as int)[j] == b@.take(i as int)[j]);
                    }
                }
            }
        }
        i += 1;
    }
    proof {
        lemma_lex_skip(a@, b@, n as int);
    }
    if a.len() == b.len() {
        proof {
            assert(a@.skip(n as int) =~= b@.skip(n as int));
        }
        KeyOrd::Equal
    } else if a.len() < b.len() {
        proof {
            assert(a@.skip(n as int).len() == 0);
            assert(b@.skip(n as int).len() > 0);
            assert(lex_lt(a@.skip(n as int), b@.skip(n as int)));
        }
        KeyOrd::Less
    } else {
        proof {
            lemma_lex_skip(b@, a@, n as int);
            assert(b@.skip(n as int).len() == 0);
            assert(a@.skip(n as int).len() > 0);
            assert(lex_lt(b@.skip(n as int), a@.skip(n as int)));
        }
        KeyOrd::Greater
    }
}

} // verus!
