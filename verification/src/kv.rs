//! An ordered byte-key store held in memory: the storage instance the runtime
//! operates on. Entries are kept strictly sorted by key; the model is the
//! sorted sequence of `(key, value)` pairs.

use vstd::prelude::*;

use crate::lex::{
    bytes_eq, bytes_lt, lex_lt, lemma_lex_transitive, lemma_lex_trichotomy,
};
use crate::value::clone_bytes;

verus! {

/// The model of one stored pair.
pub open spec fn pair_view(p: (Vec<u8>, Vec<u8>)) -> (Seq<u8>, Seq<u8>) {
    (p.0@, p.1@)
}

/// The model of a sequence of stored pairs.
pub open spec fn pairs_view(s: Seq<(Vec<u8>, Vec<u8>)>) -> Seq<(Seq<u8>, Seq<u8>)> {
    s.map_values(|p: (Vec<u8>, Vec<u8>)| pair_view(p))
}

/// Entries stand in strictly ascending key order.
pub open spec fn kv_sorted(s: Seq<(Seq<u8>, Seq<u8>)>) -> bool {
    forall|i: int, j: int|
        0 <= i < j < s.len() ==> lex_lt(#[trigger] s[i].0, #[trigger] s[j].0)
}

/// The value stored under a key, if any.
pub open spec fn kv_lookup(s: Seq<(Seq<u8>, Seq<u8>)>, k: Seq<u8>) -> Option<Seq<u8>>
    decreases s.len(),
{
    if s.len() == 0 {
        None
    } else if s[0].0 == k {
        Some(s[0].1)
    } else {
        kv_lookup(s.drop_first(), k)
    }
}

/// The sorted sequence after writing `v` under `k`.
pub open spec fn kv_insert(
    s: Seq<(Seq<u8>, Seq<u8>)>,
    k: Seq<u8>,
    v: Seq<u8>,
) -> Seq<(Seq<u8>, Seq<u8>)>
    decreases s.len(),
{
    if s.len() == 0 {
        seq![(k, v)]
    } else if lex_lt(k, s[0].0) {
        seq![(k, v)] + s
    } else if k == s[0].0 {
        seq![(k, v)] + s.drop_first()
    } else {
        seq![s[0]] + kv_insert(s.drop_first(), k, v)
    }
}

/// The sorted sequence after deleting key `k`.
pub open spec fn kv_remove(s: Seq<(Seq<u8>, Seq<u8>)>, k: Seq<u8>) -> Seq<(Seq<u8>, Seq<u8>)>
    decreases s.len(),
{
    if s.len() == 0 {
        s
    } else if s[0].0 == k {
        s.drop_first()
    } else {
        seq![s[0]] + kv_remove(s.drop_first(), k)
    }
}

/// Whether `k` lies in the half-open range `[lo, hi)`.
pub open spec fn in_range(k: Seq<u8>, lo: Seq<u8>, hi: Seq<u8>) -> bool {
    !lex_lt(k, lo) && lex_lt(k, hi)
}

/// The entries whose keys lie in `[lo, hi)`, in order.
pub open spec fn select_range(
    s: Seq<(Seq<u8>, Seq<u8>)>,
    lo: Seq<u8>,
    hi: Seq<u8>,
) -> Seq<(Seq<u8>, Seq<u8>)>
    decreases s.len(),
{
    if s.len() == 0 {
        s
    } else if in_range(s[0].0, lo, hi) {
        seq![s[0]] + select_range(s.drop_first(), lo, hi)
    } else {
        select_range(s.drop_first(), lo, hi)
    }
}

/// The entries whose keys lie outside `[lo, hi)`, in order.
pub open spec fn reject_range(
    s: Seq<(Seq<u8>, Seq<u8>)>,
    lo: Seq<u8>,
    hi: Seq<u8>,
) -> Seq<(Seq<u8>, Seq<u8>)>
    decreases s.len(),
{
    if s.len() == 0 {
        s
    } else if in_range(s[0].0, lo, hi) {
        reject_range(s.drop_first(), lo, hi)
    } else {
        seq![s[0]] + reject_range(s.drop_first(), lo, hi)
    }
}

/// Writing a whole batch, first pair first.
pub open spec fn kv_insert_all(
    s: Seq<(Seq<u8>, Seq<u8>)>,
    ps: Seq<(Seq<u8>, Seq<u8>)>,
) -> Seq<(Seq<u8>, Seq<u8>)>
    decreases ps.len(),
{
    if ps.len() == 0 {
        s
    } else {
        kv_insert_all(kv_insert(s, ps[0].0, ps[0].1), ps.drop_first())
    }
}

/// Looking up the key just written finds the value just written.
pub proof fn lemma_lookup_insert_same(s: Seq<(Seq<u8>, Seq<u8>)>, k: Seq<u8>, v: Seq<u8>)
    ensures
        kv_lookup(kv_insert(s, k, v), k) == Some(v),
    decreases s.len(),
{
    if s.len() == 0 {
    } else if lex_lt(k, s[0].0) {
        assert(kv_insert(s, k, v)[0] == (k, v));
    } else if k == s[0].0 {
        assert(kv_insert(s, k, v)[0] == (k, v));
    } else {
        lemma_lex_trichotomy(k, s[0].0);
        assert(s[0].0 != k);
        let t = seq![s[0]] + kv_insert(s.drop_first(), k, v);
        assert(t[0] == s[0]);
        assert(t.drop_first() =~= kv_insert(s.drop_first(), k, v));
        lemma_lookup_insert_same(s.drop_first(), k, v);
    }
}

/// Writing one key leaves every other key's binding alone.
pub proof fn lemma_lookup_insert_other(
    s: Seq<(Seq<u8>, Seq<u8>)>,
    k: Seq<u8>,
    v: Seq<u8>,
    k2: Seq<u8>,
)
    requires
        k2 != k,
    ensures
        kv_lookup(kv_insert(s, k, v), k2) == kv_lookup(s, k2),
    decreases s.len(),
{
    if s.len() == 0 {
        let t = seq![(k, v)];
        assert(t[0] == (k, v));
        assert(t.drop_first() =~= Seq::<(Seq<u8>, Seq<u8>)>::empty());
        assert(kv_lookup(t.drop_first(), k2) is None);
    } else if lex_lt(k, s[0].0) {
        let t = seq![(k, v)] + s;
        assert(t[0] == (k, v));
        assert(t.drop_first() =~= s);
    } else if k == s[0].0 {
        let t = seq![(k, v)] + s.drop_first();
        assert(t[0] == (k, v));
        assert(t.drop_first() =~= s.drop_first());
    } else {
        let t = seq![s[0]] + kv_insert(s.drop_first(), k, v);
        assert(t[0] == s[0]);
        assert(t.drop_first() =~= kv_insert(s.drop_first(), k, v));
        lemma_lookup_insert_other(s.drop_first(), k, v, k2);
    }
}

/// Deleting a key removes its binding and no other.
pub proof fn lemma_lookup_remove(s: Seq<(Seq<u8>, Seq<u8>)>, k: Seq<u8>, k2: Seq<u8>)
    requires
        kv_sorted(s),
    ensures
        k2 == k ==> kv_lookup(kv_remove(s, k), k2) is None,
        k2 != k ==> kv_lookup(kv_remove(s, k), k2) == kv_lookup(s, k2),
    decreases s.len(),
{
    if s.len() == 0 {
    } else if s[0].0 == k {
        assert(kv_remove(s, k) =~= s.drop_first());
        lemma_kv_sorted_drop_first(s);
        if k2 == k {
            lemma_lookup_absent_below(s.drop_first(), k);
        }
    } else {
        let t = seq![s[0]] + kv_remove(s.drop_first(), k);
        assert(t[0] == s[0]);
        assert(t.drop_first() =~= kv_remove(s.drop_first(), k));
        lemma_kv_sorted_drop_first(s);
        lemma_lookup_remove(s.drop_first(), k, k2);
    }
}

/// In a sorted store every key below the first entry is absent.
pub proof fn lemma_lookup_absent_below(s: Seq<(Seq<u8>, Seq<u8>)>, k: Seq<u8>)
    requires
        kv_sorted(s),
        s.len() > 0 ==> lex_lt(k, s[0].0),
    ensures
        kv_lookup(s, k) is None,
    decreases s.len(),
{
    if s.len() > 0 {
        lemma_lex_trichotomy(k, s[0].0);
        lemma_kv_sorted_drop_first(s);
        if s.len() > 1 {
            lemma_lex_transitive(k, s[0].0, s[1].0);
        }
        lemma_lookup_absent_below(s.drop_first(), k);
    }
}

pub proof fn lemma_kv_sorted_drop_first(s: Seq<(Seq<u8>, Seq<u8>)>)
    requires
        kv_sorted(s),
        s.len() > 0,
    ensures
        kv_sorted(s.drop_first()),
{
    assert forall|i: int, j: int|
        0 <= i < j < s.drop_first().len() implies lex_lt(
        #[trigger] s.drop_first()[i].0,
        #[trigger] s.drop_first()[j].0,
    ) by {
        assert(s.drop_first()[i] == s[i + 1]);
        assert(s.drop_first()[j] == s[j + 1]);
    }
}

/// Every element of a range selection is an element of the store, and the
/// selection of a sorted store is sorted.
pub proof fn lemma_select_range_sorted(s: Seq<(Seq<u8>, Seq<u8>)>, lo: Seq<u8>, hi: Seq<u8>)
    requires
        kv_sorted(s),
    ensures
        kv_sorted(select_range(s, lo, hi)),
        forall|x: (Seq<u8>, Seq<u8>)| select_range(s, lo, hi).contains(x) ==> s.contains(x),
        forall|x: (Seq<u8>, Seq<u8>)|
            select_range(s, lo, hi).contains(x) ==> in_range(#[trigger] x.0, lo, hi),
    decreases s.len(),
{
    if s.len() == 0 {
    } else {
        lemma_kv_sorted_drop_first(s);
        lemma_select_range_sorted(s.drop_first(), lo, hi);
        let sub = select_range(s.drop_first(), lo, hi);
        assert forall|x: (Seq<u8>, Seq<u8>)| sub.contains(x) implies s.contains(x) by {
            assert(s.drop_first().contains(x));
            let i = choose|i: int| 0 <= i < s.drop_first().len() && s.drop_first()[i] == x;
            assert(s[i + 1] == x);
        }
        if in_range(s[0].0, lo, hi) {
            let t = seq![s[0]] + sub;
            assert(t[0] == s[0]);
            assert forall|i: int, j: int| 0 <= i < j < t.len() implies lex_lt(
                #[trigger] t[i].0,
                #[trigger] t[j].0,
            ) by {
                if i == 0 {
                    assert(sub.contains(t[j])) by {
                        assert(t[j] == sub[j - 1]);
                    }
                    assert(s.contains(t[j]));
                    let m = choose|m: int| 0 <= m < s.len() && s[m] == t[j];
                    if m == 0 {
                        assert(s.drop_first().contains(t[j]));
                        let w = choose|w: int|
                            0 <= w < s.drop_first().len() && s.drop_first()[w] == t[j];
                        assert(s[w + 1] == t[j]);
                        assert(lex_lt(s[0].0, s[w + 1].0));
                    } else {
                        assert(lex_lt(s[0].0, s[m].0));
                    }
                } else {
                    assert(t[i] == sub[i - 1]);
                    assert(t[j] == sub[j - 1]);
                }
            }
            assert forall|x: (Seq<u8>, Seq<u8>)| t.contains(x) implies s.contains(x) by {
                let i = choose|i: int| 0 <= i < t.len() && t[i] == x;
                if i == 0 {
                    assert(s[0] == x);
                } else {
                    assert(sub[i - 1] == x);
                    assert(sub.contains(x));
                }
            }
            assert forall|x: (Seq<u8>, Seq<u8>)| t.contains(x) implies in_range(
                #[trigger] x.0,
                lo,
                hi,
            ) by {
                let i = choose|i: int| 0 <= i < t.len() && t[i] == x;
                if i != 0 {
                    assert(sub[i - 1] == x);
                    assert(sub.contains(x));
                }
            }
        } else {
            assert forall|x: (Seq<u8>, Seq<u8>)|
                select_range(s, lo, hi).contains(x) implies s.contains(x) by {
                assert(sub.contains(x));
            }
        }
    }
}

/// A range selection keeps every binding whose key lies in the range.
pub proof fn lemma_select_range_lookup(
    s: Seq<(Seq<u8>, Seq<u8>)>,
    lo: Seq<u8>,
    hi: Seq<u8>,
    k: Seq<u8>,
)
    requires
        kv_sorted(s),
        in_range(k, lo, hi),
    ensures
        kv_lookup(select_range(s, lo, hi), k) == kv_lookup(s, k),
    decreases s.len(),
{
    if s.len() > 0 {
        lemma_kv_sorted_drop_first(s);
        lemma_select_range_lookup(s.drop_first(), lo, hi, k);
        if in_range(s[0].0, lo, hi) {
            let t = seq![s[0]] + select_range(s.drop_first(), lo, hi);
            assert(t[0] == s[0]);
            assert(t.drop_first() =~= select_range(s.drop_first(), lo, hi));
        } else {
            assert(s[0].0 != k);
        }
    }
}

/// What survives a range deletion: bindings outside the range, and no other.
pub proof fn lemma_reject_range(s: Seq<(Seq<u8>, Seq<u8>)>, lo: Seq<u8>, hi: Seq<u8>, k: Seq<u8>)
    requires
        kv_sorted(s),
    ensures
        in_range(k, lo, hi) ==> kv_lookup(reject_range(s, lo, hi), k) is None,
        !in_range(k, lo, hi) ==> kv_lookup(reject_range(s, lo, hi), k) == kv_lookup(s, k),
    decreases s.len(),
{
    if s.len() == 0 {
    } else {
        lemma_kv_sorted_drop_first(s);
        lemma_reject_range(s.drop_first(), lo, hi, k);
        if in_range(s[0].0, lo, hi) {
            if s[0].0 == k {
                lemma_lookup_absent_in_tail(s, k);
            }
        } else {
            let t = seq![s[0]] + reject_range(s.drop_first(), lo, hi);
            assert(t[0] == s[0]);
            assert(t.drop_first() =~= reject_range(s.drop_first(), lo, hi));
        }
    }
}

/// In a sorted store the first key does not recur in the tail.
pub proof fn lemma_lookup_absent_in_tail(s: Seq<(Seq<u8>, Seq<u8>)>, k: Seq<u8>)
    requires
        kv_sorted(s),
        s.len() > 0,
        s[0].0 == k,
    ensures
        kv_lookup(s.drop_first(), k) is None,
{
    lemma_kv_sorted_drop_first(s);
    if s.len() > 1 {
        assert(lex_lt(s[0].0, s[1].0));
        assert(s.drop_first()[0] == s[1]);
        lemma_lex_trichotomy(k, s.drop_first()[0].0);
        lemma_lookup_absent_below(s.drop_first(), k);
    }
}

/// Rejection of a sorted store is sorted.
pub proof fn lemma_reject_range_sorted(s: Seq<(Seq<u8>, Seq<u8>)>, lo: Seq<u8>, hi: Seq<u8>)
    requires
        kv_sorted(s),
    ensures
        kv_sorted(reject_range(s, lo, hi)),
        forall|x: (Seq<u8>, Seq<u8>)| reject_range(s, lo, hi).contains(x) ==> s.contains(x),
    decreases s.len(),
{
    if s.len() == 0 {
    } else {
        lemma_kv_sorted_drop_first(s);
        lemma_reject_range_sorted(s.drop_first(), lo, hi);
        let sub = reject_range(s.drop_first(), lo, hi);
        assert forall|x: (Seq<u8>, Seq<u8>)| sub.contains(x) implies s.contains(x) by {
            assert(s.drop_first().contains(x));
            let i = choose|i: int| 0 <= i < s.drop_first().len() && s.drop_first()[i] == x;
            assert(s[i + 1] == x);
        }
        if !in_range(s[0].0, lo, hi) {
            let t = seq![s[0]] + sub;
            assert(t[0] == s[0]);
            assert forall|i: int, j: int| 0 <= i < j < t.len() implies lex_lt(
                #[trigger] t[i].0,
                #[trigger] t[j].0,
            ) by {
                if i == 0 {
                    assert(t[j] == sub[j - 1]);
                    assert(sub.contains(t[j]));
                    assert(s.contains(t[j]));
                    let m = choose|m: int| 0 <= m < s.len() && s[m] == t[j];
                    if m == 0 {
                        assert(s.drop_first().contains(t[j]));
                        let w = choose|w: int|
                            0 <= w < s.drop_first().len() && s.drop_first()[w] == t[j];
                        assert(s[w + 1] == t[j]);
                        assert(lex_lt(s[0].0, s[w + 1].0));
                    } else {
                        assert(lex_lt(s[0].0, s[m].0));
                    }
                } else {
                    assert(t[i] == sub[i - 1]);
                    assert(t[j] == sub[j - 1]);
                }
            }
            assert forall|x: (Seq<u8>, Seq<u8>)| t.contains(x) implies s.contains(x) by {
                let i = choose|i: int| 0 <= i < t.len() && t[i] == x;
                if i == 0 {
                    assert(s[0] == x);
                } else {
                    assert(sub[i - 1] == x);
                    assert(sub.contains(x));
                }
            }
        }
    }
}

/// The ordered in-memory store.
pub struct MemKv {
    pub entries: Vec<(Vec<u8>, Vec<u8>)>,
}

impl View for MemKv {
    type V = Seq<(Seq<u8>, Seq<u8>)>;

    open spec fn view(&self) -> Seq<(Seq<u8>, Seq<u8>)> {
        pairs_view(self.entries@)
    }
}

impl MemKv {
    /// Well-formed: entries strictly sorted by key.
    pub open spec fn wf(&self) -> bool {
        kv_sorted(self@)
    }

    /// An empty store.
    pub fn new() -> (r: MemKv)
        ensures
            r.wf(),
            r@ =~= Seq::<(Seq<u8>, Seq<u8>)>::empty(),
    {
        let r = MemKv { entries: Vec::new() };
        proof {
            assert(r@ =~= Seq::<(Seq<u8>, Seq<u8>)>::empty());
        }
        r
    }

    /// A copy of the whole store, with the same contents.
    pub fn duplicate(&self) -> (r: MemKv)
        ensures
            r@ == self@,
            self.wf() ==> r.wf(),
    {
        let mut out: Vec<(Vec<u8>, Vec<u8>)> = Vec::new();
        let mut i: usize = 0;
        while i < self.entries.len()
            invariant
                0 <= i <= self.entries@.len(),
                self@.len() == self.entries@.len(),
                pairs_view(out@) =~= self@.take(i as int),
            decreases self.entries@.len() - i,
        {
            let pair = (clone_bytes(&self.entries[i].0), clone_bytes(&self.entries[i].1));
            let ghost pv = (pair.0@, pair.1@);
            let ghost prevout = out@;
            out.push(pair);
            proof {
                assert(pairs_view(prevout).len() == prevout.len());
                assert(pairs_view(prevout).len() == i);
                assert(out@.len() == i + 1);
                assert(pairs_view(out@).len() == i + 1);
                assert forall|j: int| 0 <= j < i + 1 implies #[trigger] pairs_view(out@)[j]
                    == self@.take(i + 1)[j] by {
                    assert(pairs_view(out@)[j] == (out@[j].0@, out@[j].1@));
                    if j < i {
                        assert(out@[j] == prevout[j]);
                        assert(pairs_view(prevout)[j] == (prevout[j].0@, prevout[j].1@));
                    } else {
                        assert((out@[j].0@, out@[j].1@) == pv);
                        assert(self@[j] == (self.entries@[j].0@, self.entries@[j].1@));
                    }
                }
                assert(pairs_view(out@) =~= self@.take(i + 1 as int));
            }
            i = i + 1;
        }
        let r = MemKv { entries: out };
        proof {
            assert(self@.take(self@.len() as int) =~= self@);
            assert(r@ == self@);
        }
        r
    }

    /// The value stored under `k`, copied out.
    pub fn get(&self, k: &Vec<u8>) -> (r: Option<Vec<u8>>)
        ensures
            match r {
                None => kv_lookup(self@, k@) is None,
                Some(v) => kv_lookup(self@, k@) == Some(v@),
            },
    {
        let mut i: usize = 0;
        while i < self.entries.len()
            invariant
                0 <= i <= self.entries@.len(),
                self@.len() == self.entries@.len(),
                forall|j: int| 0 <= j < i ==> self@[j].0 != k@,
            decreases self.entries@.len() - i,
        {
            if bytes_eq(&self.entries[i].0, k) {
                proof {
                    lemma_lookup_found(self@, k@, i as int);
                }
                return Some(clone_bytes(&self.entries[i].1));
            }
            i = i + 1;
        }
        proof {
            lemma_lookup_not_found(self@, k@);
        }
        None
    }

    /// Writes `v` under `k`, replacing any previous binding.
    pub fn put(&mut self, k: Vec<u8>, v: Vec<u8>)
        requires
            old(self).wf(),
        ensures
            final(self).wf(),
            final(self)@ == kv_insert(old(self)@, k@, v@),
    {
        let mut i: usize = 0;
        while i < self.entries.len() && bytes_lt(&self.entries[i].0, &k)
            invariant
                0 <= i <= self.entries@.len(),
                self.wf(),
                self@.len() == self.entries@.len(),
                self == old(self),
                forall|j: int| 0 <= j < i ==> lex_lt(#[trigger] self@[j].0, k@),
            decreases self.entries@.len() - i,
        {
            i = i + 1;
        }
        let replace: bool = i < self.entries.len() && bytes_eq(&self.entries[i].0, &k);
        proof {
            lemma_insert_split(self@, k@, v@, i as int, replace);
        }
        if replace {
            self.entries.remove(i);
            self.entries.insert(i, (k, v));
            proof {
                assert(self@ =~= old(self)@.take(i as int) + seq![(k@, v@)] + old(self)@.skip(
                    i + 1,
                ));
                lemma_insert_split_sorted(old(self)@, k@, v@, i as int, true);
            }
        } else {
            self.entries.insert(i, (k, v));
            proof {
                assert(self@ =~= old(self)@.take(i as int) + seq![(k@, v@)] + old(self)@.skip(
                    i as int,
                ));
                lemma_insert_split_sorted(old(self)@, k@, v@, i as int, false);
            }
        }
    }

    /// Deletes the binding of `k`, if any.
    pub fn del(&mut self, k: &Vec<u8>)
        requires
            old(self).wf(),
        ensures
            final(self).wf(),
            final(self)@ == kv_remove(old(self)@, k@),
    {
        let mut i: usize = 0;
        while i < self.entries.len()
            invariant
                0 <= i <= self.entries@.len(),
                self.wf(),
                self@.len() == self.entries@.len(),
                self == old(self),
                forall|j: int| 0 <= j < i ==> self@[j].0 != k@,
            decreases self.entries@.len() - i,
        {
            if bytes_eq(&self.entries[i].0, k) {
                proof {
                    lemma_remove_split(self@, k@, i as int);
                    lemma_remove_split_sorted(self@, i as int);
                }
                self.entries.remove(i);
                proof {
                    assert(self@ =~= old(self)@.take(i as int) + old(self)@.skip(i + 1));
                }
                return ;
            }
            i = i + 1;
        }
        proof {
            lemma_remove_absent(self@, k@);
        }
    }

    /// All entries with key in `[lo, hi)`, in key order, copied out.
    pub fn range_scan(&self, lo: &Vec<u8>, hi: &Vec<u8>) -> (r: Vec<(Vec<u8>, Vec<u8>)>)
        ensures
            pairs_view(r@) == select_range(self@, lo@, hi@),
    {
        let mut out: Vec<(Vec<u8>, Vec<u8>)> = Vec::new();
        let mut i: usize = 0;
        while i < self.entries.len()
            invariant
                0 <= i <= self.entries@.len(),
                self@.len() == self.entries@.len(),
                pairs_view(out@) =~= select_range(self@.take(i as int), lo@, hi@),
            decreases self.entries@.len() - i,
        {
            proof {
                lemma_select_range_snoc(self@.take(i as int), self@[i as int], lo@, hi@);
                assert(self@.take(i + 1 as int) =~= self@.take(i as int).push(self@[i as int]));
            }
            let ki = &self.entries[i].0;
            if !bytes_lt(ki, lo) && bytes_lt(ki, hi) {
                let pair = (clone_bytes(&self.entries[i].0), clone_bytes(&self.entries[i].1));
                out.push(pair);
                proof {
                    assert(pairs_view(out@) =~= select_range(self@.take(i + 1 as int), lo@, hi@));
                }
            } else {
                proof {
                    assert(pairs_view(out@) =~= select_range(self@.take(i + 1 as int), lo@, hi@));
                }
            }
            i = i + 1;
        }
        proof {
            assert(self@.take(self@.len() as int) =~= self@);
        }
        out
    }

    /// Deletes every binding with key in `[lo, hi)`.
    pub fn del_range(&mut self, lo: &Vec<u8>, hi: &Vec<u8>)
        requires
            old(self).wf(),
        ensures
            final(self).wf(),
            final(self)@ == reject_range(old(self)@, lo@, hi@),
    {
        let mut out: Vec<(Vec<u8>, Vec<u8>)> = Vec::new();
        let mut i: usize = 0;
        let n = self.entries.len();
        while i < n
            invariant
                0 <= i <= n == self.entries@.len(),
                self@.len() == self.entries@.len(),
                self == old(self),
                pairs_view(out@) =~= reject_range(self@.take(i as int), lo@, hi@),
            decreases n - i,
        {
            proof {
                lemma_reject_range_snoc(self@.take(i as int), self@[i as int], lo@, hi@);
                assert(self@.take(i + 1 as int) =~= self@.take(i as int).push(self@[i as int]));
            }
            let ki = &self.entries[i].0;
            if !(!bytes_lt(ki, lo) && bytes_lt(ki, hi)) {
                let pair = (clone_bytes(&self.entries[i].0), clone_bytes(&self.entries[i].1));
                out.push(pair);
            }
            proof {
                assert(pairs_view(out@) =~= reject_range(self@.take(i + 1 as int), lo@, hi@));
            }
            i = i + 1;
        }
        proof {
            assert(self@.take(self@.len() as int) =~= self@);
        }
        self.entries = out;
        proof {
            lemma_reject_range_sorted(old(self)@, lo@, hi@);
        }
    }

    /// Physical compaction of a key range; the contents do not change.
    pub fn range_compact(&mut self, lo: &Vec<u8>, hi: &Vec<u8>)
        requires
            old(self).wf(),
        ensures
            final(self).wf(),
            final(self)@ == old(self)@,
    {
    }

    /// Writes a whole batch of pairs, first pair first.
    pub fn batch_put(&mut self, pairs: Vec<(Vec<u8>, Vec<u8>)>)
        requires
            old(self).wf(),
        ensures
            final(self).wf(),
            final(self)@ == kv_insert_all(old(self)@, pairs_view(pairs@)),
    {
        let ghost ps = pairs_view(pairs@);
        let mut i: usize = 0;
        let n = pairs.len();
        let mut rest = pairs;
        proof {
            assert(ps.skip(0) =~= ps);
        }
        while i < n
            invariant
                0 <= i <= n == ps.len(),
                rest@.len() == n,
                pairs_view(rest@).skip(i as int) =~= ps.skip(i as int),
                self.wf(),
                kv_insert_all(old(self)@, ps) == kv_insert_all(self@, ps.skip(i as int)),
            decreases n - i,
        {
            proof {
                assert(pairs_view(rest@)[i as int] == ps.skip(i as int)[0]);
                assert(ps.skip(i as int).drop_first() =~= ps.skip(i + 1));
            }
            let k = clone_bytes(&rest[i].0);
            let v = clone_bytes(&rest[i].1);
            self.put(k, v);
            i = i + 1;
        }
        proof {
            assert(ps.skip(n as int).len() == 0);
        }
    }
}

/// A key found at an index, absent before it, is what lookup finds.
pub proof fn lemma_lookup_found(s: Seq<(Seq<u8>, Seq<u8>)>, k: Seq<u8>, i: int)
    requires
        0 <= i < s.len(),
        s[i].0 == k,
        forall|j: int| 0 <= j < i ==> s[j].0 != k,
    ensures
        kv_lookup(s, k) == Some(s[i].1),
    decreases i,
{
    if i == 0 {
    } else {
        assert(s[0].0 != k);
        assert(s.drop_first()[i - 1] == s[i]);
        assert(forall|j: int| 0 <= j < i - 1 ==> s.drop_first()[j] == s[j + 1]);
        lemma_lookup_found(s.drop_first(), k, i - 1);
    }
}

/// A key at no index is a key lookup does not find.
pub proof fn lemma_lookup_not_found(s: Seq<(Seq<u8>, Seq<u8>)>, k: Seq<u8>)
    requires
        forall|j: int| 0 <= j < s.len() ==> s[j].0 != k,
    ensures
        kv_lookup(s, k) is None,
    decreases s.len(),
{
    if s.len() > 0 {
        assert(forall|j: int| 0 <= j < s.len() - 1 ==> s.drop_first()[j] == s[j + 1]);
        lemma_lookup_not_found(s.drop_first(), k);
    }
}

/// The recursive insert, written as a split at the insertion point.
pub proof fn lemma_insert_split(s: Seq<(Seq<u8>, Seq<u8>)>, k: Seq<u8>, v: Seq<u8>, i: int, rep: bool)
    requires
        kv_sorted(s),
        0 <= i <= s.len(),
        forall|j: int| 0 <= j < i ==> lex_lt(#[trigger] s[j].0, k),
        i < s.len() ==> !lex_lt(s[i].0, k),
        rep <==> (i < s.len() && s[i].0 == k),
    ensures
        rep ==> kv_insert(s, k, v) == s.take(i) + seq![(k, v)] + s.skip(i + 1),
        !rep ==> kv_insert(s, k, v) == s.take(i) + seq![(k, v)] + s.skip(i),
    decreases i,
{
    if i == 0 {
        if rep {
            assert(kv_insert(s, k, v) =~= s.take(0) + seq![(k, v)] + s.skip(1));
        } else {
            if s.len() > 0 {
                lemma_lex_trichotomy(k, s[0].0);
                assert(lex_lt(k, s[0].0));
                assert(kv_insert(s, k, v) =~= s.take(0) + seq![(k, v)] + s.skip(0));
            } else {
                assert(kv_insert(s, k, v) =~= s.take(0) + seq![(k, v)] + s.skip(0));
            }
        }
    } else {
        lemma_lex_trichotomy(k, s[0].0);
        assert(lex_lt(s[0].0, k));
        lemma_kv_sorted_drop_first(s);
        assert(forall|j: int| 0 <= j < i - 1 ==> s.drop_first()[j] == s[j + 1]);
        assert(i - 1 < s.drop_first().len() ==> s.drop_first()[i - 1] == s[i]);
        lemma_insert_split(s.drop_first(), k, v, i - 1, rep);
        if rep {
            assert(kv_insert(s, k, v) =~= s.take(i) + seq![(k, v)] + s.skip(i + 1)) by {
                assert(kv_insert(s, k, v) == seq![s[0]] + kv_insert(s.drop_first(), k, v));
                assert(s.drop_first().take(i - 1) =~= s.take(i).drop_first());
                assert(s.drop_first().skip(i) =~= s.skip(i + 1));
            }
        } else {
            assert(kv_insert(s, k, v) =~= s.take(i) + seq![(k, v)] + s.skip(i)) by {
                assert(kv_insert(s, k, v) == seq![s[0]] + kv_insert(s.drop_first(), k, v));
                assert(s.drop_first().take(i - 1) =~= s.take(i).drop_first());
                assert(s.drop_first().skip(i - 1) =~= s.skip(i));
            }
        }
    }
}

/// The split form of an insert into a sorted store is sorted.
pub proof fn lemma_insert_split_sorted(
    s: Seq<(Seq<u8>, Seq<u8>)>,
    k: Seq<u8>,
    v: Seq<u8>,
    i: int,
    rep: bool,
)
    requires
        kv_sorted(s),
        0 <= i <= s.len(),
        forall|j: int| 0 <= j < i ==> lex_lt(#[trigger] s[j].0, k),
        i < s.len() ==> !lex_lt(s[i].0, k),
        rep <==> (i < s.len() && s[i].0 == k),
    ensures
        rep ==> kv_sorted(s.take(i) + seq![(k, v)] + s.skip(i + 1)),
        !rep ==> kv_sorted(s.take(i) + seq![(k, v)] + s.skip(i)),
{
    let drop: int = if rep {
        i + 1
    } else {
        i
    };
    let t = s.take(i) + seq![(k, v)] + s.skip(drop);
    assert forall|a: int, b: int| 0 <= a < b < t.len() implies lex_lt(
        #[trigger] t[a].0,
        #[trigger] t[b].0,
    ) by {
        if a < i {
            assert(t[a] == s[a]);
        } else if a == i {
            assert(t[a] == (k, v));
        } else {
            assert(t[a] == s[a - i - 1 + drop]);
        }
        if b < i {
            assert(t[b] == s[b]);
        } else if b == i {
            assert(t[b] == (k, v));
        } else {
            assert(t[b] == s[b - i - 1 + drop]);
        }
        if b == i {
            assert(lex_lt(t[a].0, k));
        } else if b > i {
            let sb = b - i - 1 + drop;
            assert(drop <= sb < s.len());
            if a < i {
                if sb > a {
                    assert(lex_lt(s[a].0, s[sb].0));
                }
                if sb == a {
                    // sb >= drop >= i > a rules this case out
                    assert(false);
                }
            } else if a == i {
                if i < s.len() && sb >= i {
                    if sb == i {
                        assert(!rep);
                        lemma_lex_trichotomy(k, s[i].0);
                    } else {
                        lemma_lex_trichotomy(k, s[i].0);
                        if rep {
                            assert(sb >= i + 1);
                            if sb == i + 1 {
                                assert(lex_lt(s[i].0, s[sb].0));
                                assert(k == s[i].0);
                            } else {
                                assert(lex_lt(s[i].0, s[sb].0));
                                if rep {
                                    assert(k == s[i].0);
                                }
                            }
                        } else {
                            assert(lex_lt(k, s[i].0));
                            if sb == i {
                            } else {
                                assert(lex_lt(s[i].0, s[sb].0));
                                lemma_lex_transitive(k, s[i].0, s[sb].0);
                            }
                        }
                    }
                }
            } else {
                let sa = a - i - 1 + drop;
                assert(lex_lt(s[sa].0, s[sb].0));
            }
        }
    }
}

/// The recursive remove, written as a split at the found index.
pub proof fn lemma_remove_split(s: Seq<(Seq<u8>, Seq<u8>)>, k: Seq<u8>, i: int)
    requires
        0 <= i < s.len(),
        s[i].0 == k,
        forall|j: int| 0 <= j < i ==> s[j].0 != k,
    ensures
        kv_remove(s, k) == s.take(i) + s.skip(i + 1),
    decreases i,
{
    if i == 0 {
        assert(kv_remove(s, k) =~= s.take(0) + s.skip(1));
    } else {
        assert(s[0].0 != k);
        assert(forall|j: int| 0 <= j < i - 1 ==> s.drop_first()[j] == s[j + 1]);
        assert(s.drop_first()[i - 1] == s[i]);
        lemma_remove_split(s.drop_first(), k, i - 1);
        assert(kv_remove(s, k) =~= s.take(i) + s.skip(i + 1)) by {
            assert(kv_remove(s, k) == seq![s[0]] + kv_remove(s.drop_first(), k));
            assert(s.drop_first().take(i - 1) =~= s.take(i).drop_first());
            assert(s.drop_first().skip(i) =~= s.skip(i + 1));
        }
    }
}

/// Removing one entry from a sorted store keeps it sorted.
pub proof fn lemma_remove_split_sorted(s: Seq<(Seq<u8>, Seq<u8>)>, i: int)
    requires
        kv_sorted(s),
        0 <= i < s.len(),
    ensures
        kv_sorted(s.take(i) + s.skip(i + 1)),
{
    let t = s.take(i) + s.skip(i + 1);
    assert forall|a: int, b: int| 0 <= a < b < t.len() implies lex_lt(
        #[trigger] t[a].0,
        #[trigger] t[b].0,
    ) by {
        let sa: int = if a < i {
            a
        } else {
            a + 1
        };
        let sb: int = if b < i {
            b
        } else {
            b + 1
        };
        assert(t[a] == s[sa]);
        assert(t[b] == s[sb]);
    }
}

/// Removing an absent key changes nothing.
pub proof fn lemma_remove_absent(s: Seq<(Seq<u8>, Seq<u8>)>, k: Seq<u8>)
    requires
        forall|j: int| 0 <= j < s.len() ==> s[j].0 != k,
    ensures
        kv_remove(s, k) == s,
    decreases s.len(),
{
    if s.len() > 0 {
        assert(forall|j: int| 0 <= j < s.len() - 1 ==> s.drop_first()[j] == s[j + 1]);
        lemma_remove_absent(s.drop_first(), k);
        assert(kv_remove(s, k) =~= s) by {
            assert(kv_remove(s, k) == seq![s[0]] + kv_remove(s.drop_first(), k));
        }
    }
}

/// Extending the store by one entry extends its range selection.
pub proof fn lemma_select_range_snoc(
    s: Seq<(Seq<u8>, Seq<u8>)>,
    p: (Seq<u8>, Seq<u8>),
    lo: Seq<u8>,
    hi: Seq<u8>,
)
    ensures
        in_range(p.0, lo, hi) ==> select_range(s.push(p), lo, hi) == select_range(s, lo, hi).push(
            p,
        ),
        !in_range(p.0, lo, hi) ==> select_range(s.push(p), lo, hi) == select_range(s, lo, hi),
    decreases s.len(),
{
    if s.len() == 0 {
        assert(s.push(p)[0] == p);
        assert(s.push(p).drop_first() =~= Seq::<(Seq<u8>, Seq<u8>)>::empty());
        reveal_with_fuel(select_range, 3);
        if in_range(p.0, lo, hi) {
            assert(select_range(s.push(p), lo, hi) =~= select_range(s, lo, hi).push(p));
        } else {
            assert(select_range(s.push(p), lo, hi) =~= select_range(s, lo, hi));
        }
    } else {
        assert(s.push(p)[0] == s[0]);
        assert(s.push(p).drop_first() =~= s.drop_first().push(p));
        lemma_select_range_snoc(s.drop_first(), p, lo, hi);
        if in_range(p.0, lo, hi) {
            assert(select_range(s.push(p), lo, hi) =~= select_range(s, lo, hi).push(p));
        } else {
            assert(select_range(s.push(p), lo, hi) =~= select_range(s, lo, hi));
        }
    }
}

/// Extending the store by one entry extends its range rejection.
pub proof fn lemma_reject_range_snoc(
    s: Seq<(Seq<u8>, Seq<u8>)>,
    p: (Seq<u8>, Seq<u8>),
    lo: Seq<u8>,
    hi: Seq<u8>,
)
    ensures
        !in_range(p.0, lo, hi) ==> reject_range(s.push(p), lo, hi) == reject_range(s, lo, hi).push(
            p,
        ),
        in_range(p.0, lo, hi) ==> reject_range(s.push(p), lo, hi) == reject_range(s, lo, hi),
    decreases s.len(),
{
    if s.len() == 0 {
        assert(s.push(p)[0] == p);
        assert(s.push(p).drop_first() =~= Seq::<(Seq<u8>, Seq<u8>)>::empty());
        reveal_with_fuel(reject_range, 3);
        if !in_range(p.0, lo, hi) {
            assert(reject_range(s.push(p), lo, hi) =~= reject_range(s, lo, hi).push(p));
        } else {
            assert(reject_range(s.push(p), lo, hi) =~= reject_range(s, lo, hi));
        }
    } else {
        assert(s.push(p)[0] == s[0]);
        assert(s.push(p).drop_first() =~= s.drop_first().push(p));
        lemma_reject_range_snoc(s.drop_first(), p, lo, hi);
        if !in_range(p.0, lo, hi) {
            assert(reject_range(s.push(p), lo, hi) =~= reject_range(s, lo, hi).push(p));
        } else {
            assert(reject_range(s.push(p), lo, hi) =~= reject_range(s, lo, hi));
        }
    }
}

} // verus!
