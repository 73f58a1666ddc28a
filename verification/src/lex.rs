//! Byte-lexicographic ordering of store keys: the order that the key-value
//! store sorts by, with the lemmas the store's invariants rest on.

use vstd::prelude::*;

verus! {

/// Strict lexicographic order on byte strings: `a` comes before `b`.
pub open spec fn lex_lt(a: Seq<u8>, b: Seq<u8>) -> bool
    decreases a.len(),
{
    if b.len() == 0 {
        false
    } else if a.len() == 0 {
        true
    } else if a[0] < b[0] {
        true
    } else if a[0] > b[0] {
        false
    } else {
        lex_lt(a.drop_first(), b.drop_first())
    }
}

/// Non-strict lexicographic order.
pub open spec fn lex_le(a: Seq<u8>, b: Seq<u8>) -> bool {
    lex_lt(a, b) || a == b
}

proof fn lemma_eq_from_parts(a: Seq<u8>, b: Seq<u8>)
    requires
        a.len() > 0,
        b.len() > 0,
        a[0] == b[0],
        a.drop_first() == b.drop_first(),
    ensures
        a == b,
{
    let at = a.drop_first();
    let bt = b.drop_first();
    assert(at.len() == a.len() - 1);
    assert(bt.len() == b.len() - 1);
    assert(at.len() == bt.len());
    assert(a.len() == b.len());
    assert forall|i: int| 0 <= i < a.len() implies a[i] == b[i] by {
        if i > 0 {
            assert(a[i] == at[i - 1]);
            assert(b[i] == bt[i - 1]);
        }
    }
    assert(a =~= b);
}

/// Exactly one of `a < b`, `a == b`, `b < a` holds.
pub proof fn lemma_lex_trichotomy(a: Seq<u8>, b: Seq<u8>)
    ensures
        lex_lt(a, b) || a == b || lex_lt(b, a),
        lex_lt(a, b) ==> a != b && !lex_lt(b, a),
        lex_lt(b, a) ==> a != b && !lex_lt(a, b),
    decreases a.len(),
{
    if a.len() == 0 && b.len() == 0 {
        assert(a =~= b);
    } else if a.len() != 0 && b.len() != 0 && a[0] == b[0] {
        lemma_lex_trichotomy(a.drop_first(), b.drop_first());
        if a.drop_first() == b.drop_first() {
            lemma_eq_from_parts(a, b);
        }
        if a == b {
            assert(a.drop_first() =~= b.drop_first());
        }
    } else if a == b {
        assert(a.drop_first() =~= b.drop_first());
    }
}

/// The order is transitive.
pub proof fn lemma_lex_transitive(a: Seq<u8>, b: Seq<u8>, c: Seq<u8>)
    requires
        lex_lt(a, b),
        lex_lt(b, c),
    ensures
        lex_lt(a, c),
    decreases b.len(),
{
    if a.len() != 0 && c.len() != 0 {
        if a[0] == b[0] && b[0] == c[0] {
            lemma_lex_transitive(a.drop_first(), b.drop_first(), c.drop_first());
        }
    }
}

/// No extension of `a` comes before `a` itself.
pub proof fn lemma_lex_prefix_le(a: Seq<u8>, rest: Seq<u8>)
    ensures
        !lex_lt(a + rest, a),
    decreases a.len(),
{
    if a.len() == 0 {
    } else {
        assert((a + rest)[0] == a[0]);
        assert((a + rest).drop_first() =~= a.drop_first() + rest);
        lemma_lex_prefix_le(a.drop_first(), rest);
    }
}

/// Two strings of one length that are strictly ordered stay so under any
/// extensions: the order is decided at a byte where they differ.
pub proof fn lemma_lex_extend(a: Seq<u8>, b: Seq<u8>, r1: Seq<u8>, r2: Seq<u8>)
    requires
        a.len() == b.len(),
        lex_lt(a, b),
    ensures
        lex_lt(a + r1, b + r2),
    decreases a.len(),
{
    assert(a.len() != 0);
    assert((a + r1)[0] == a[0]);
    assert((b + r2)[0] == b[0]);
    if a[0] == b[0] {
        assert((a + r1).drop_first() =~= a.drop_first() + r1);
        assert((b + r2).drop_first() =~= b.drop_first() + r2);
        lemma_lex_extend(a.drop_first(), b.drop_first(), r1, r2);
    }
}

/// Under one common prefix, the order is the order of what follows.
pub proof fn lemma_lex_common_prefix(p: Seq<u8>, a: Seq<u8>, b: Seq<u8>)
    ensures
        lex_lt(p + a, p + b) == lex_lt(a, b),
    decreases p.len(),
{
    if p.len() == 0 {
        assert(p + a =~= a);
        assert(p + b =~= b);
    } else {
        assert((p + a)[0] == p[0]);
        assert((p + b)[0] == p[0]);
        assert((p + a).drop_first() =~= p.drop_first() + a);
        assert((p + b).drop_first() =~= p.drop_first() + b);
        lemma_lex_common_prefix(p.drop_first(), a, b);
    }
}

/// Outcome of a three-way byte-string comparison.
pub enum Cmp {
    Less,
    Equal,
    Greater,
}

/// Splitting at an index where both strings agree does not change the order.
pub proof fn lemma_lex_skip(a: Seq<u8>, b: Seq<u8>, k: int)
    requires
        0 <= k <= a.len(),
        0 <= k <= b.len(),
        a.take(k) =~= b.take(k),
    ensures
        lex_lt(a, b) == lex_lt(a.skip(k), b.skip(k)),
        (a == b) == (a.skip(k) =~= b.skip(k)),
    decreases k,
{
    if k > 0 {
        assert(a.len() > 0 && b.len() > 0);
        assert(a[0] == b[0]) by {
            assert(a.take(k)[0] == a[0]);
            assert(b.take(k)[0] == b[0]);
        }
        assert(a.drop_first().take(k - 1) =~= b.drop_first().take(k - 1)) by {
            assert forall|i: int| 0 <= i < k - 1 implies #[trigger] a.drop_first().take(k - 1)[i]
                == b.drop_first().take(k - 1)[i] by {
                assert(a.take(k)[i + 1] == b.take(k)[i + 1]);
            }
        }
        lemma_lex_skip(a.drop_first(), b.drop_first(), k - 1);
        assert(a.drop_first().skip(k - 1) =~= a.skip(k));
        assert(b.drop_first().skip(k - 1) =~= b.skip(k));
        if a.drop_first() == b.drop_first() && a[0] == b[0] {
            lemma_eq_from_parts(a, b);
        }
        if a == b {
            assert(a.drop_first() =~= b.drop_first());
        }
    } else {
        assert(a.skip(0) =~= a);
        assert(b.skip(0) =~= b);
    }
}

/// Three-way comparison of two byte strings in lexicographic order.
pub fn cmp_bytes(a: &[u8], b: &[u8]) -> (r: Cmp)
    ensures
        r is Less <==> lex_lt(a@, b@),
        r is Equal <==> a@ == b@,
        r is Greater <==> lex_lt(b@, a@),
{
    proof {
        lemma_lex_trichotomy(a@, b@);
    }
    let n: usize = if a.len() < b.len() {
        a.len()
    } else {
        b.len()
    };
    let mut i: usize = 0;
    while i < n
        invariant
            0 <= i <= n,
            n <= a@.len(),
            n <= b@.len(),
            n == a@.len() || n == b@.len(),
            a@.take(i as int) =~= b@.take(i as int),
        decreases n - i,
    {
        let x = a[i];
        let y = b[i];
        if x < y {
            proof {
                lemma_lex_skip(a@, b@, i as int);
                assert(a@.skip(i as int)[0] == x);
                assert(b@.skip(i as int)[0] == y);
                lemma_lex_trichotomy(a@, b@);
            }
            return Cmp::Less;
        }
        if x > y {
            proof {
                lemma_lex_skip(a@, b@, i as int);
                assert(a@.skip(i as int)[0] == x);
                assert(b@.skip(i as int)[0] == y);
                lemma_lex_trichotomy(a@, b@);
            }
            return Cmp::Greater;
        }
        proof {
            assert(a@.take(i + 1 as int) =~= a@.take(i as int).push(x));
            assert(b@.take(i + 1 as int) =~= b@.take(i as int).push(y));
        }
        i = i + 1;
    }
    proof {
        lemma_lex_skip(a@, b@, n as int);
        lemma_lex_trichotomy(a@, b@);
    }
    if a.len() < b.len() {
        proof {
            assert(a@.skip(n as int).len() == 0);
            assert(b@.skip(n as int).len() > 0);
        }
        Cmp::Less
    } else if a.len() > b.len() {
        proof {
            assert(b@.skip(n as int).len() == 0);
            assert(a@.skip(n as int).len() > 0);
        }
        Cmp::Greater
    } else {
        proof {
            assert(a@.skip(n as int) =~= b@.skip(n as int));
        }
        Cmp::Equal
    }
}

/// True exactly when `a` comes strictly before `b`.
pub fn bytes_lt(a: &Vec<u8>, b: &Vec<u8>) -> (r: bool)
    ensures
        r == lex_lt(a@, b@),
{
    matches!(cmp_bytes(a.as_slice(), b.as_slice()), Cmp::Less)
}

/// True exactly when `a` comes strictly before `b`, for borrowed slices.
pub fn bytes_lt_slices(a: &[u8], b: &[u8]) -> (r: bool)
    ensures
        r == lex_lt(a@, b@),
{
    matches!(cmp_bytes(a, b), Cmp::Less)
}

/// True exactly when the two byte strings are equal.
pub fn bytes_eq(a: &Vec<u8>, b: &Vec<u8>) -> (r: bool)
    ensures
        r == (a@ == b@),
{
    matches!(cmp_bytes(a.as_slice(), b.as_slice()), Cmp::Equal)
}

} // verus!
