//! Evaluation of one statement: producing rows under a poison, sorting by
//! the requested columns, paginating, and committing rows into a stored
//! relation.

use vstd::prelude::*;

use crate::codec::{dec_row, enc_row, encode_row};
use crate::error::Error;
use crate::kv::{kv_insert, kv_lookup, kv_remove, select_range};
use crate::lex::lex_lt;
use crate::poison::Poison;
use crate::program::{InputRelationMeta, QuerySpec};
use crate::relation::{cols_view, handle_vals, key_bytes, range_lower, ColV, RelationHandle};
use crate::session::{catalog_entry, cat_key_v, SessionTx};
use crate::value::{row_view, DataValue, Tuple, Val};

verus! {

/// The models of a sequence of tuples.
pub open spec fn tuples_view(ts: Seq<Tuple>) -> Seq<Seq<Val>> {
    ts.map_values(|t: Tuple| t@)
}

/// Rank of a value's variant in the value order.
pub open spec fn val_rank(v: Val) -> int {
    match v {
        Val::Null => 0,
        Val::Bool(_) => 1,
        Val::Int(_) => 2,
        Val::Str(_) => 3,
        Val::Bytes(_) => 4,
        Val::List(_) => 5,
        Val::Dict(_) => 6,
        Val::Bot => 7,
    }
}

/// The strict order on values: by variant rank, then by content; `Bot`
/// sorts after everything else. Two lists or two maps are mutually
/// unordered: a sort treats them as ties.
pub open spec fn val_lt(a: Val, b: Val) -> bool {
    if val_rank(a) != val_rank(b) {
        val_rank(a) < val_rank(b)
    } else {
        match (a, b) {
            (Val::Bool(x), Val::Bool(y)) => !x && y,
            (Val::Int(x), Val::Int(y)) => x < y,
            (Val::Str(x), Val::Str(y)) => lex_lt(x, y),
            (Val::Bytes(x), Val::Bytes(y)) => lex_lt(x, y),
            _ => false,
        }
    }
}

/// The order is strict: asymmetric and irreflexive.
pub proof fn lemma_val_trichotomy(a: Val, b: Val)
    ensures
        val_lt(a, b) ==> a != b && !val_lt(b, a),
        val_lt(b, a) ==> a != b && !val_lt(a, b),
        a == b ==> !val_lt(a, b),
{
    match (a, b) {
        (Val::Str(x), Val::Str(y)) => {
            crate::lex::lemma_lex_trichotomy(x, y);
        },
        (Val::Bytes(x), Val::Bytes(y)) => {
            crate::lex::lemma_lex_trichotomy(x, y);
        },
        _ => {},
    }
}

/// Whether `a` comes strictly before `b` in the value order.
pub fn val_lt_exec(a: &DataValue, b: &DataValue) -> (r: bool)
    ensures
        r == val_lt(a@, b@),
{
    match (a, b) {
        (DataValue::Bool(x), DataValue::Bool(y)) => !*x && *y,
        (DataValue::Int(x), DataValue::Int(y)) => x < y,
        (DataValue::Str(x), DataValue::Str(y)) => crate::lex::bytes_lt_slices(
            x.as_slice(),
            y.as_slice(),
        ),
        (DataValue::Bytes(x), DataValue::Bytes(y)) => crate::lex::bytes_lt_slices(
            x.as_slice(),
            y.as_slice(),
        ),
        _ => {
            let ra = rank_exec(a);
            let rb = rank_exec(b);
            ra < rb
        },
    }
}

fn rank_exec(v: &DataValue) -> (r: i64)
    ensures
        r == val_rank(v@),
{
    match v {
        DataValue::Null => 0,
        DataValue::Bool(_) => 1,
        DataValue::Int(_) => 2,
        DataValue::Str(_) => 3,
        DataValue::Bytes(_) => 4,
        DataValue::List(_) => 5,
        DataValue::Dict(_) => 6,
        DataValue::Bot => 7,
    }
}

/// The value a row carries in a column, null when the row is too short.
pub open spec fn val_at(r: Seq<Val>, i: int) -> Val {
    if 0 <= i < r.len() {
        r[i]
    } else {
        Val::Null
    }
}

/// Whether `a` may stand before `b` under the resolved sort keys: compare
/// column by column, each ascending or descending; ties fall through.
pub open spec fn row_le(sorters: Seq<(usize, bool)>, a: Seq<Val>, b: Seq<Val>) -> bool
    decreases sorters.len(),
{
    if sorters.len() == 0 {
        true
    } else {
        let c = sorters[0];
        let va = val_at(a, c.0 as int);
        let vb = val_at(b, c.0 as int);
        if val_lt(va, vb) {
            !c.1
        } else if val_lt(vb, va) {
            c.1
        } else {
            row_le(sorters.drop_first(), a, b)
        }
    }
}

/// The order is total: two rows can always stand one way or the other.
pub proof fn lemma_row_le_total(sorters: Seq<(usize, bool)>, a: Seq<Val>, b: Seq<Val>)
    ensures
        row_le(sorters, a, b) || row_le(sorters, b, a),
    decreases sorters.len(),
{
    if sorters.len() > 0 {
        let c = sorters[0];
        lemma_val_trichotomy(val_at(a, c.0 as int), val_at(b, c.0 as int));
        lemma_row_le_total(sorters.drop_first(), a, b);
    }
}

/// Whether `a` may stand before `b`, decided.
pub fn row_le_exec(sorters: &Vec<(usize, bool)>, a: &Tuple, b: &Tuple) -> (r: bool)
    ensures
        r == row_le(sorters@, a@, b@),
{
    let mut i: usize = 0;
    proof {
        assert(sorters@.skip(0) =~= sorters@);
    }
    while i < sorters.len()
        invariant
            0 <= i <= sorters@.len(),
            row_le(sorters@, a@, b@) == row_le(sorters@.skip(i as int), a@, b@),
        decreases sorters@.len() - i,
    {
        proof {
            assert(sorters@.skip(i as int)[0] == sorters@[i as int]);
            assert(sorters@.skip(i as int).drop_first() =~= sorters@.skip(i + 1));
        }
        let (col, desc) = sorters[i];
        let va = tuple_col(a, col);
        let vb = tuple_col(b, col);
        if val_lt_exec(va, vb) {
            return !desc;
        }
        if val_lt_exec(vb, va) {
            return desc;
        }
        i = i + 1;
    }
    proof {
        assert(sorters@.skip(sorters@.len() as int).len() == 0);
    }
    true
}

fn tuple_col(t: &Tuple, i: usize) -> (r: &DataValue)
    ensures
        r@ == val_at(t@, i as int),
{
    if i < t.0.len() {
        proof {
            assert(t@[i as int] == t.0@[i as int]@);
        }
        &t.0[i]
    } else {
        &DataValue::Null
    }
}

/// Appending a tuple appends its model.
pub proof fn lemma_tuples_view_push(s: Seq<Tuple>, t: Tuple)
    ensures
        tuples_view(s.push(t)) == tuples_view(s).push(t@),
{
    assert forall|j: int| 0 <= j < s.len() + 1 implies #[trigger] tuples_view(s.push(t))[j]
        == tuples_view(s).push(t@)[j] by {
        if j < s.len() {
            assert(s.push(t)[j] == s[j]);
        } else {
            assert(s.push(t)[j] == t);
        }
    }
    assert(tuples_view(s.push(t)) =~= tuples_view(s).push(t@));
}

/// Inserting anywhere adds one occurrence to the multiset.
proof fn lemma_insert_multiset<A>(s: Seq<A>, p: int, x: A)
    requires
        0 <= p <= s.len(),
    ensures
        s.insert(p, x).to_multiset() == s.to_multiset().insert(x),
{
    broadcast use vstd::seq_lib::group_to_multiset_ensures;

    let t = s.insert(p, x);
    assert(t.remove(p) =~= s);
    assert(t[p] == x);
    assert(t.remove(p).to_multiset() =~= t.to_multiset().remove(t[p]));
    assert(t.to_multiset().contains(x)) by {
        assert(t.contains(x));
    }
    assert(t.to_multiset() =~= s.to_multiset().insert(x)) by {
        assert(s.to_multiset() == t.to_multiset().remove(x));
        assert(forall|y: A|
            #[trigger] t.to_multiset().count(y) == if y == x {
                s.to_multiset().count(y) + 1
            } else {
                s.to_multiset().count(y)
            });
    }
}

/// Sorts rows by the resolved sort keys: the result is a permutation of the
/// input in which every row may stand before its successor.
pub fn sort_rows(rows: Vec<Tuple>, sorters: &Vec<(usize, bool)>) -> (r: Vec<Tuple>)
    ensures
        tuples_view(r@).to_multiset() == tuples_view(rows@).to_multiset(),
        forall|i: int|
            0 <= i < r@.len() - 1 ==> row_le(sorters@, #[trigger] r@[i]@, r@[i + 1]@),
{
    broadcast use vstd::seq_lib::group_to_multiset_ensures;

    let mut out: Vec<Tuple> = Vec::new();
    let mut i: usize = 0;
    let n = rows.len();
    let mut rest = rows;
    proof {
        assert(tuples_view(out@) =~= tuples_view(rest@.take(0)));
        assert(tuples_view(rest@.take(0)).to_multiset() =~= tuples_view(out@).to_multiset());
    }
    while i < n
        invariant
            0 <= i <= n == rest@.len(),
            tuples_view(out@).to_multiset() == tuples_view(rest@.take(i as int)).to_multiset(),
            forall|j: int|
                0 <= j < out@.len() - 1 ==> row_le(sorters@, #[trigger] out@[j]@, out@[j + 1]@),
        decreases n - i,
    {
        let x = rest[i].duplicate();
        let ghost xv = x@;
        let mut p: usize = 0;
        while p < out.len() && !row_le_exec(sorters, &x, &out[p])
            invariant
                0 <= p <= out@.len(),
                x@ == xv,
                forall|j: int| 0 <= j < p ==> !row_le(sorters@, xv, #[trigger] out@[j]@),
            decreases out@.len() - p,
        {
            p = p + 1;
        }
        let ghost prevout = out@;
        out.insert(p, x);
        proof {
            assert(out@ =~= prevout.insert(p as int, out@[p as int]));
            assert(out@[p as int]@ == xv);
            lemma_insert_multiset(prevout, p as int, out@[p as int]);
            assert(tuples_view(out@).to_multiset() =~= tuples_view(prevout).to_multiset().insert(
                xv,
            )) by {
                assert(tuples_view(out@) =~= tuples_view(prevout).insert(p as int, xv));
                lemma_insert_multiset(tuples_view(prevout), p as int, xv);
            }
            assert(rest@.take(i + 1) =~= rest@.take(i as int).push(rest@[i as int]));
            lemma_tuples_view_push(rest@.take(i as int), rest@[i as int]);
            let tv = tuples_view(rest@.take(i as int));
            tv.to_multiset_ensures();
            assert(tv.push(rest@[i as int]@).to_multiset() =~= tv.to_multiset().insert(
                rest@[i as int]@,
            ));
            assert(rest@[i as int]@ == xv);
            assert forall|j: int|
                0 <= j < out@.len() - 1 implies row_le(
                sorters@,
                #[trigger] out@[j]@,
                out@[j + 1]@,
            ) by {
                if j < p - 1 {
                    assert(out@[j] == prevout[j]);
                    assert(out@[j + 1] == prevout[j + 1]);
                } else if j == p - 1 {
                    assert(out@[j] == prevout[j]);
                    assert(!row_le(sorters@, xv, prevout[j as int]@));
                    lemma_row_le_total(sorters@, xv, prevout[j as int]@);
                    assert(out@[j + 1]@ == xv);
                } else if j == p {
                    assert(out@[j]@ == xv);
                    if p < prevout.len() {
                        assert(out@[j + 1] == prevout[p as int]);
                        assert(row_le(sorters@, xv, prevout[p as int]@));
                    }
                } else {
                    assert(out@[j] == prevout[j - 1]);
                    assert(out@[j + 1] == prevout[j]);
                }
            }
        }
        i = i + 1;
    }
    proof {
        assert(rest@.take(n as int) =~= rest@);
    }
    out
}

/// The page of `s` that an optional offset and limit select.
pub open spec fn paged(s: Seq<Seq<Val>>, limit: Option<usize>, offset: Option<usize>) -> Seq<
    Seq<Val>,
> {
    let o: int = match offset {
        Some(o) => if o as int <= s.len() {
            o as int
        } else {
            s.len() as int
        },
        None => 0,
    };
    let t = s.skip(o);
    match limit {
        Some(l) => if (l as int) <= t.len() {
            t.take(l as int)
        } else {
            t
        },
        None => t,
    }
}

/// Applies offset, then limit.
pub fn page_rows(rows: Vec<Tuple>, limit: Option<usize>, offset: Option<usize>) -> (r: Vec<
    Tuple,
>)
    ensures
        tuples_view(r@) == paged(tuples_view(rows@), limit, offset),
{
    let o = match offset {
        Some(o) => if o <= rows.len() {
            o
        } else {
            rows.len()
        },
        None => 0,
    };
    let end = match limit {
        Some(l) => if l <= rows.len() - o {
            o + l
        } else {
            rows.len()
        },
        None => rows.len(),
    };
    let mut out: Vec<Tuple> = Vec::new();
    let mut i: usize = o;
    while i < end
        invariant
            o <= i <= end <= rows@.len(),
            tuples_view(out@) =~= tuples_view(rows@).subrange(o as int, i as int),
        decreases end - i,
    {
        let ghost prevout = out@;
        let d = rows[i].duplicate();
        let ghost dv = d@;
        out.push(d);
        proof {
            lemma_tuples_view_push(prevout, out@.last());
            assert(out@ =~= prevout.push(out@.last()));
            assert(dv == tuples_view(rows@)[i as int]);
            assert(tuples_view(out@) =~= tuples_view(rows@).subrange(o as int, i + 1));
        }
        i = i + 1;
    }
    proof {
        assert(tuples_view(out@) =~= paged(tuples_view(rows@), limit, offset));
    }
    out
}

/// The tuple one stored pair stands for: the key columns from behind the id
/// prefix, then the non-key columns.
pub open spec fn decode_pair(p: (Seq<u8>, Seq<u8>)) -> Option<Seq<Val>> {
    if p.0.len() >= 8 {
        match dec_row(p.0.skip(8)) {
            None => None,
            Some(ks) => match dec_row(p.1) {
                None => None,
                Some(vs) => Some(ks + vs),
            },
        }
    } else {
        None
    }
}

/// The rows a sequence of stored pairs stands for, or nothing when any pair
/// does not decode.
pub open spec fn decode_pairs(s: Seq<(Seq<u8>, Seq<u8>)>) -> Option<Seq<Seq<Val>>>
    decreases s.len(),
{
    if s.len() == 0 {
        Some(Seq::empty())
    } else {
        match decode_pair(s[0]) {
            None => None,
            Some(row) => match decode_pairs(s.drop_first()) {
                None => None,
                Some(rest) => Some(seq![row] + rest),
            },
        }
    }
}

/// The generated integer rows `0 .. n`.
pub open spec fn gen_rows(n: u64) -> Seq<Seq<Val>> {
    Seq::new(n as nat, |i: int| seq![Val::Int(i as i64)])
}

/// The full row set a plan stands for over a store, before pagination;
/// nothing when a stored row does not decode.
pub open spec fn query_rows(q: QuerySpec, s: Seq<(Seq<u8>, Seq<u8>)>) -> Option<Seq<Seq<Val>>> {
    match q {
        QuerySpec::ConstRows(ts) => Some(tuples_view(ts@)),
        QuerySpec::ScanStored(name) => match catalog_entry(s, name@) {
            None => None,
            Some(h) => if h.id < u64::MAX {
                decode_pairs(select_range(s, range_lower(h.id), range_lower((h.id + 1) as u64)))
            } else {
                None
            },
        },
        QuerySpec::Generate(n) => Some(gen_rows(n)),
    }
}

/// Evaluates a plan under a poison, probing it between tuples. When it
/// answers, the rows are exactly the plan's row set; a kill may interrupt it
/// at any tuple instead.
pub fn eval_query(tx: &SessionTx, q: &QuerySpec, poison: &Poison) -> (r: Result<
    Vec<Tuple>,
    Error,
>)
    ensures
        match r {
            Ok(rows) => query_rows(*q, tx.store@) == Some(tuples_view(rows@)),
            Err(e) => match e {
                Error::Killed => true,
                Error::StoredRelationNotFound(n) => (*q matches QuerySpec::ScanStored(nm)
                    && n@ == nm@ && kv_lookup(tx.store@, cat_key_v(nm@)) is None),
                Error::DbInit => query_rows(*q, tx.store@) is None,
                _ => false,
            },
        },
{
    match q {
        QuerySpec::ConstRows(ts) => {
            let mut out: Vec<Tuple> = Vec::new();
            let mut i: usize = 0;
            while i < ts.len()
                invariant
                    0 <= i <= ts@.len(),
                    tuples_view(out@) =~= tuples_view(ts@).take(i as int),
                decreases ts@.len() - i,
            {
                match poison.check() {
                    Ok(_) => {},
                    Err(e) => {
                        return Err(e);
                    },
                }
                let ghost prevout = out@;
                let d = ts[i].duplicate();
                out.push(d);
                proof {
                    lemma_tuples_view_push(prevout, out@.last());
                    assert(out@ =~= prevout.push(out@.last()));
                    assert(tuples_view(out@) =~= tuples_view(ts@).take(i + 1));
                }
                i = i + 1;
            }
            proof {
                assert(tuples_view(ts@).take(ts@.len() as int) =~= tuples_view(ts@));
            }
            Ok(out)
        },
        QuerySpec::Generate(n) => {
            let mut out: Vec<Tuple> = Vec::new();
            let mut i: u64 = 0;
            while i < *n
                invariant
                    0 <= i <= *n,
                    out@.len() == i,
                    tuples_view(out@) =~= gen_rows(*n).take(i as int),
                decreases *n - i,
            {
                match poison.check() {
                    Ok(_) => {},
                    Err(e) => {
                        return Err(e);
                    },
                }
                let t = Tuple(vec![DataValue::Int(i as i64)]);
                proof {
                    assert(t@ =~= seq![Val::Int(i as i64)]);
                }
                let ghost prevout = out@;
                out.push(t);
                proof {
                    lemma_tuples_view_push(prevout, out@.last());
                    assert(out@ =~= prevout.push(out@.last()));
                    assert(tuples_view(out@) =~= gen_rows(*n).take(i + 1));
                }
                i = i + 1;
            }
            proof {
                assert(gen_rows(*n).take(*n as int) =~= gen_rows(*n));
            }
            Ok(out)
        },
        QuerySpec::ScanStored(name) => {
            let h = match tx.get_relation(name) {
                Ok(h) => h,
                Err(e) => {
                    return Err(match e {
                        Error::StoredRelationNotFound(n2) => Error::StoredRelationNotFound(n2),
                        _ => Error::DbInit,
                    });
                },
            };
            if h.id.0 == u64::MAX {
                return Err(Error::DbInit);
            }
            let pairs = tx.scan_relation(&h);
            let ghost pv = crate::kv::pairs_view(pairs@);
            let mut out: Vec<Tuple> = Vec::new();
            let mut i: usize = 0;
            proof {
                assert(pv.skip(0) =~= pv);
            }
            while i < pairs.len()
                invariant
                    0 <= i <= pairs@.len(),
                    *q == QuerySpec::ScanStored(*name),
                    pv == crate::kv::pairs_view(pairs@),
                    pv.len() == pairs@.len(),
                    catalog_entry(tx.store@, name@) == Some(h@),
                    h@.id < u64::MAX,
                    pv == select_range(
                        tx.store@,
                        range_lower(h@.id),
                        range_lower((h@.id + 1) as u64),
                    ),
                    decode_pairs(pv) is Some <==> decode_pairs(pv.skip(i as int)) is Some,
                    forall|rest: Seq<Seq<Val>>|
                        decode_pairs(pv.skip(i as int)) == Some(rest) ==> decode_pairs(pv)
                            == Some(tuples_view(out@) + rest),
                decreases pairs@.len() - i,
            {
                match poison.check() {
                    Ok(_) => {},
                    Err(e) => {
                        return Err(e);
                    },
                }
                proof {
                    assert(pv.skip(i as int)[0] == pv[i as int]);
                    assert(pv.skip(i as int).drop_first() =~= pv.skip(i + 1));
                    assert(pv[i as int] == (pairs@[i as int].0@, pairs@[i as int].1@));
                }
                let t = match crate::relation::decode_tuple_from_kv(
                    &pairs[i].0,
                    &pairs[i].1,
                ) {
                    None => {
                        proof {
                            assert(decode_pair(pv[i as int]) is None);
                            assert(decode_pairs(pv.skip(i as int)) is None);
                            assert(decode_pairs(pv) is None);
                            assert(query_rows(*q, tx.store@) is None);
                        }
                        return Err(Error::DbInit);
                    },
                    Some(t) => t,
                };
                proof {
                    assert(decode_pair(pv[i as int]) == Some(t@));
                    assert forall|rest: Seq<Seq<Val>>|
                        decode_pairs(pv.skip(i + 1)) == Some(rest) implies decode_pairs(pv)
                        == Some(tuples_view(out@.push(t)) + rest) by {
                        assert(decode_pairs(pv.skip(i as int)) == Some(seq![t@] + rest));
                        lemma_tuples_view_push(out@, t);
                        assert(tuples_view(out@) + (seq![t@] + rest) =~= tuples_view(
                            out@,
                        ).push(t@) + rest);
                    }
                }
                out.push(t);
                i = i + 1;
            }
            proof {
                assert(pv.skip(pairs@.len() as int).len() == 0);
                assert(decode_pairs(pv.skip(pairs@.len() as int)) == Some(
                    Seq::<Seq<Val>>::empty(),
                ));
                assert(tuples_view(out@) + Seq::<Seq<Val>>::empty() =~= tuples_view(out@));
            }
            Ok(out)
        },
    }
}

/// Whether a row fits a schema: right arity, every value inside its
/// column's type.
pub open spec fn row_ok(keys: Seq<ColV>, nks: Seq<ColV>, row: Seq<Val>) -> bool {
    &&& row.len() == keys.len() + nks.len()
    &&& forall|i: int| 0 <= i < keys.len() ==> (#[trigger] keys[i]).typing.spec_admits(row[i])
    &&& forall|i: int|
        0 <= i < nks.len() ==> (#[trigger] nks[i]).typing.spec_admits(row[keys.len() + i])
}

pub open spec fn rows_ok(keys: Seq<ColV>, nks: Seq<ColV>, rows: Seq<Seq<Val>>) -> bool {
    forall|i: int| 0 <= i < rows.len() ==> row_ok(keys, nks, #[trigger] rows[i])
}

/// Whether a row begins with a full key for the schema.
pub open spec fn row_key_ok(keys: Seq<ColV>, row: Seq<Val>) -> bool {
    &&& row.len() >= keys.len()
    &&& forall|i: int| 0 <= i < keys.len() ==> (#[trigger] keys[i]).typing.spec_admits(row[i])
}

pub open spec fn rows_key_ok(keys: Seq<ColV>, rows: Seq<Seq<Val>>) -> bool {
    forall|i: int| 0 <= i < rows.len() ==> row_key_ok(keys, #[trigger] rows[i])
}

/// The store after writing each row in turn under `id`: the first `nk`
/// values encode the key, the rest the value.
pub open spec fn put_rows_spec(
    s: Seq<(Seq<u8>, Seq<u8>)>,
    id: u64,
    nk: int,
    rows: Seq<Seq<Val>>,
) -> Seq<(Seq<u8>, Seq<u8>)>
    decreases rows.len(),
{
    if rows.len() == 0 {
        s
    } else {
        put_rows_spec(
            kv_insert(s, key_bytes(id, rows[0].take(nk)), enc_row(rows[0].skip(nk))),
            id,
            nk,
            rows.drop_first(),
        )
    }
}

/// The store after deleting each row's key in turn under `id`.
pub open spec fn rm_rows_spec(
    s: Seq<(Seq<u8>, Seq<u8>)>,
    id: u64,
    nk: int,
    rows: Seq<Seq<Val>>,
) -> Seq<(Seq<u8>, Seq<u8>)>
    decreases rows.len(),
{
    if rows.len() == 0 {
        s
    } else {
        rm_rows_spec(kv_remove(s, key_bytes(id, rows[0].take(nk))), id, nk, rows.drop_first())
    }
}

/// Checks every row against a schema: `Ok` exactly when each has the right
/// arity and admissible values.
pub fn validate_rows(
    keys: &Vec<crate::relation::ColumnDef>,
    nks: &Vec<crate::relation::ColumnDef>,
    rows: &Vec<Tuple>,
    name: &Vec<u8>,
) -> (r: Result<(), Error>)
    ensures
        r is Ok <==> rows_ok(cols_view(keys@), cols_view(nks@), tuples_view(rows@)),
        r matches Err(e) ==> (e is ArityMismatch || e is TypeMismatch),
{
    let ghost kv = cols_view(keys@);
    let ghost nv = cols_view(nks@);
    let ghost rv = tuples_view(rows@);
    let mut i: usize = 0;
    while i < rows.len()
        invariant
            0 <= i <= rows@.len(),
            kv == cols_view(keys@),
            nv == cols_view(nks@),
            rv == tuples_view(rows@),
            rv.len() == rows@.len(),
            kv.len() == keys@.len(),
            nv.len() == nks@.len(),
            forall|j: int| 0 <= j < i ==> row_ok(kv, nv, #[trigger] rv[j]),
        decreases rows@.len() - i,
    {
        let t = &rows[i];
        proof {
            assert(rv[i as int] == t@);
            assert(t@.len() == t.0@.len());
        }
        if !(t.0.len() >= keys.len() && t.0.len() - keys.len() == nks.len()) {
            proof {
                assert(!row_ok(kv, nv, rv[i as int]));
            }
            return Err(Error::ArityMismatch(crate::value::clone_bytes(name)));
        }
        let mut c: usize = 0;
        while c < keys.len()
            invariant
                0 <= c <= keys@.len(),
                kv == cols_view(keys@),
                nv == cols_view(nks@),
                rv == tuples_view(rows@),
                rv.len() == rows@.len(),
                0 <= i < rows@.len(),
                rv[i as int] == t@,
                kv.len() == keys@.len(),
                nv.len() == nks@.len(),
                t@.len() == t.0@.len(),
                t.0@.len() == keys@.len() + nks@.len(),
                forall|j: int| 0 <= j < c ==> (#[trigger] kv[j]).typing.spec_admits(t@[j]),
            decreases keys@.len() - c,
        {
            proof {
                assert(kv[c as int] == keys@[c as int]@);
                assert(t@[c as int] == t.0@[c as int]@);
            }
            if !keys[c].typing.admits(&t.0[c]) {
                proof {
                    assert(!row_ok(kv, nv, rv[i as int]));
                }
                return Err(Error::TypeMismatch(crate::value::clone_bytes(name)));
            }
            c = c + 1;
        }
        let nkl = keys.len();
        let tlen = t.0.len();
        let mut c2: usize = 0;
        while c2 < nks.len()
            invariant
                0 <= c2 <= nks@.len(),
                tlen == t.0@.len(),
                kv == cols_view(keys@),
                nv == cols_view(nks@),
                rv == tuples_view(rows@),
                rv.len() == rows@.len(),
                0 <= i < rows@.len(),
                rv[i as int] == t@,
                nv.len() == nks@.len(),
                nkl == keys@.len(),
                kv.len() == keys@.len(),
                t@.len() == t.0@.len(),
                t.0@.len() == keys@.len() + nks@.len(),
                forall|j: int|
                    0 <= j < c2 ==> (#[trigger] nv[j]).typing.spec_admits(t@[nkl + j]),
            decreases nks@.len() - c2,
        {
            proof {
                assert(nv[c2 as int] == nks@[c2 as int]@);
                assert(t@[nkl + c2] == t.0@[nkl + c2]@);
            }
            if !nks[c2].typing.admits(&t.0[nkl + c2]) {
                proof {
                    assert(!row_ok(kv, nv, rv[i as int]));
                }
                return Err(Error::TypeMismatch(crate::value::clone_bytes(name)));
            }
            c2 = c2 + 1;
        }
        proof {
            assert(row_ok(kv, nv, rv[i as int]));
        }
        i = i + 1;
    }
    Ok(())
}

/// Checks that every row begins with a full, admissible key.
pub fn validate_row_keys(
    keys: &Vec<crate::relation::ColumnDef>,
    rows: &Vec<Tuple>,
    name: &Vec<u8>,
) -> (r: Result<(), Error>)
    ensures
        r is Ok <==> rows_key_ok(cols_view(keys@), tuples_view(rows@)),
        r matches Err(e) ==> (e is ArityMismatch || e is TypeMismatch),
{
    let ghost kv = cols_view(keys@);
    let ghost rv = tuples_view(rows@);
    let mut i: usize = 0;
    while i < rows.len()
        invariant
            0 <= i <= rows@.len(),
            kv == cols_view(keys@),
            rv == tuples_view(rows@),
            rv.len() == rows@.len(),
            kv.len() == keys@.len(),
            forall|j: int| 0 <= j < i ==> row_key_ok(kv, #[trigger] rv[j]),
        decreases rows@.len() - i,
    {
        let t = &rows[i];
        proof {
            assert(rv[i as int] == t@);
            assert(t@.len() == t.0@.len());
        }
        if t.0.len() < keys.len() {
            proof {
                assert(!row_key_ok(kv, rv[i as int]));
            }
            return Err(Error::ArityMismatch(crate::value::clone_bytes(name)));
        }
        let mut c: usize = 0;
        while c < keys.len()
            invariant
                0 <= c <= keys@.len(),
                kv == cols_view(keys@),
                rv == tuples_view(rows@),
                rv.len() == rows@.len(),
                0 <= i < rows@.len(),
                rv[i as int] == t@,
                kv.len() == keys@.len(),
                t@.len() == t.0@.len(),
                t.0@.len() >= keys@.len(),
                forall|j: int| 0 <= j < c ==> (#[trigger] kv[j]).typing.spec_admits(t@[j]),
            decreases keys@.len() - c,
        {
            proof {
                assert(kv[c as int] == keys@[c as int]@);
                assert(t@[c as int] == t.0@[c as int]@);
            }
            if !keys[c].typing.admits(&t.0[c]) {
                proof {
                    assert(!row_key_ok(kv, rv[i as int]));
                }
                return Err(Error::TypeMismatch(crate::value::clone_bytes(name)));
            }
            c = c + 1;
        }
        proof {
            assert(row_key_ok(kv, rv[i as int]));
        }
        i = i + 1;
    }
    Ok(())
}

/// Splits a row at the key boundary.
pub fn split_row(t: &Tuple, nk: usize) -> (r: (Tuple, Tuple))
    requires
        nk <= t@.len(),
    ensures
        r.0@ == t@.take(nk as int),
        r.1@ == t@.skip(nk as int),
{
    let mut ks: Vec<DataValue> = Vec::new();
    let mut i: usize = 0;
    proof {
        assert(t@.len() == t.0@.len());
    }
    while i < nk
        invariant
            0 <= i <= nk <= t.0@.len(),
            t@.len() == t.0@.len(),
            row_view(ks@) =~= t@.take(i as int),
        decreases nk - i,
    {
        let ghost prev = ks@;
        ks.push(t.0[i].duplicate());
        proof {
            crate::value::lemma_row_view_push(prev, ks@.last());
            assert(ks@ =~= prev.push(ks@.last()));
            assert(t@[i as int] == t.0@[i as int]@);
            assert(row_view(ks@) =~= t@.take(i + 1));
        }
        i = i + 1;
    }
    let mut vs: Vec<DataValue> = Vec::new();
    let mut j: usize = nk;
    while j < t.0.len()
        invariant
            nk <= j <= t.0@.len(),
            t@.len() == t.0@.len(),
            row_view(vs@) =~= t@.subrange(nk as int, j as int),
        decreases t.0@.len() - j,
    {
        let ghost prev = vs@;
        vs.push(t.0[j].duplicate());
        proof {
            crate::value::lemma_row_view_push(prev, vs@.last());
            assert(vs@ =~= prev.push(vs@.last()));
            assert(t@[j as int] == t.0@[j as int]@);
            assert(row_view(vs@) =~= t@.subrange(nk as int, j + 1));
        }
        j = j + 1;
    }
    let kt = Tuple(ks);
    let vt = Tuple(vs);
    proof {
        assert(kt@ =~= t@.take(nk as int));
        assert(vt@ =~= t@.skip(nk as int));
    }
    (kt, vt)
}

/// Writes every row into the relation, first row first.
pub fn put_rows(tx: &mut SessionTx, h: &RelationHandle, nk: usize, rows: &Vec<Tuple>)
    requires
        old(tx).wf(),
        forall|i: int| 0 <= i < tuples_view(rows@).len() ==> (#[trigger] tuples_view(rows@)[i]).len() >= nk,
    ensures
        final(tx).wf(),
        final(tx).relation_store_id == old(tx).relation_store_id,
        final(tx).write == old(tx).write,
        final(tx).store@ == put_rows_spec(old(tx).store@, h@.id, nk as int, tuples_view(rows@)),
{
    let ghost rv = tuples_view(rows@);
    let mut i: usize = 0;
    proof {
        assert(rv.skip(0) =~= rv);
    }
    while i < rows.len()
        invariant
            0 <= i <= rows@.len(),
            rv == tuples_view(rows@),
            rv.len() == rows@.len(),
            forall|j: int| 0 <= j < rv.len() ==> (#[trigger] rv[j]).len() >= nk,
            tx.wf(),
            tx.relation_store_id == old(tx).relation_store_id,
            tx.write == old(tx).write,
            put_rows_spec(old(tx).store@, h@.id, nk as int, rv) == put_rows_spec(
                tx.store@,
                h@.id,
                nk as int,
                rv.skip(i as int),
            ),
        decreases rows@.len() - i,
    {
        proof {
            assert(rv.skip(i as int)[0] == rv[i as int]);
            assert(rv.skip(i as int).drop_first() =~= rv.skip(i + 1));
            assert(rv[i as int] == rows@[i as int]@);
        }
        let (kt, vt) = split_row(&rows[i], nk);
        tx.put_row(h, &kt, &vt);
        i = i + 1;
    }
    proof {
        assert(rv.skip(rv.len() as int).len() == 0);
    }
}

/// Deletes every row's key from the relation, first row first.
pub fn rm_rows(tx: &mut SessionTx, h: &RelationHandle, nk: usize, rows: &Vec<Tuple>)
    requires
        old(tx).wf(),
        forall|i: int| 0 <= i < tuples_view(rows@).len() ==> (#[trigger] tuples_view(rows@)[i]).len() >= nk,
    ensures
        final(tx).wf(),
        final(tx).relation_store_id == old(tx).relation_store_id,
        final(tx).write == old(tx).write,
        final(tx).store@ == rm_rows_spec(old(tx).store@, h@.id, nk as int, tuples_view(rows@)),
{
    let ghost rv = tuples_view(rows@);
    let mut i: usize = 0;
    proof {
        assert(rv.skip(0) =~= rv);
    }
    while i < rows.len()
        invariant
            0 <= i <= rows@.len(),
            rv == tuples_view(rows@),
            rv.len() == rows@.len(),
            forall|j: int| 0 <= j < rv.len() ==> (#[trigger] rv[j]).len() >= nk,
            tx.wf(),
            tx.relation_store_id == old(tx).relation_store_id,
            tx.write == old(tx).write,
            rm_rows_spec(old(tx).store@, h@.id, nk as int, rv) == rm_rows_spec(
                tx.store@,
                h@.id,
                nk as int,
                rv.skip(i as int),
            ),
        decreases rows@.len() - i,
    {
        proof {
            assert(rv.skip(i as int)[0] == rv[i as int]);
            assert(rv.skip(i as int).drop_first() =~= rv.skip(i + 1));
            assert(rv[i as int] == rows@[i as int]@);
        }
        let (kt, _vt) = split_row(&rows[i], nk);
        tx.del_row(h, &kt);
        i = i + 1;
    }
    proof {
        assert(rv.skip(rv.len() as int).len() == 0);
    }
}

/// Whether two column lists agree in names and types; defaults are not part
/// of compatibility.
pub open spec fn cols_compatible(a: Seq<ColV>, b: Seq<ColV>) -> bool {
    a.len() == b.len() && forall|i: int|
        0 <= i < a.len() ==> (#[trigger] a[i]).name == b[i].name && a[i].typing == b[i].typing
}

/// Whether an existing relation accepts a directive's schema.
pub fn ensure_compatible(h: &RelationHandle, meta: &InputRelationMeta) -> (r: bool)
    ensures
        r == (cols_compatible(h@.keys, cols_view(meta.keys@)) && cols_compatible(
            h@.non_keys,
            cols_view(meta.non_keys@),
        )),
{
    cols_eq_exec(&h.keys, &meta.keys) && cols_eq_exec(&h.non_keys, &meta.non_keys)
}

fn cols_eq_exec(a: &Vec<crate::relation::ColumnDef>, b: &Vec<crate::relation::ColumnDef>) -> (r:
    bool)
    ensures
        r == cols_compatible(cols_view(a@), cols_view(b@)),
{
    let ghost av = cols_view(a@);
    let ghost bv = cols_view(b@);
    if a.len() != b.len() {
        proof {
            assert(av.len() == a@.len());
            assert(bv.len() == b@.len());
        }
        return false;
    }
    let mut i: usize = 0;
    while i < a.len()
        invariant
            0 <= i <= a@.len(),
            av == cols_view(a@),
            bv == cols_view(b@),
            av.len() == a@.len(),
            bv.len() == b@.len(),
            a@.len() == b@.len(),
            forall|j: int|
                0 <= j < i ==> (#[trigger] av[j]).name == bv[j].name && av[j].typing
                    == bv[j].typing,
        decreases a@.len() - i,
    {
        proof {
            assert(av[i as int] == a@[i as int]@);
            assert(bv[i as int] == b@[i as int]@);
        }
        if !crate::lex::bytes_eq(&a[i].name, &b[i].name) {
            return false;
        }
        if a[i].typing.code() != b[i].typing.code() {
            proof {
                crate::relation::lemma_coltype_code_roundtrip(a@[i as int].typing);
                crate::relation::lemma_coltype_code_roundtrip(b@[i as int].typing);
            }
            return false;
        }
        proof {
            crate::relation::lemma_coltype_code_roundtrip(a@[i as int].typing);
            crate::relation::lemma_coltype_code_roundtrip(b@[i as int].typing);
        }
        i = i + 1;
    }
    true
}

/// Writing rows of a user relation never touches a catalog binding.
pub proof fn lemma_put_rows_catalog(
    s: Seq<(Seq<u8>, Seq<u8>)>,
    id: u64,
    nk: int,
    rows: Seq<Seq<Val>>,
    nm: Seq<u8>,
)
    requires
        id >= 1,
    ensures
        kv_lookup(put_rows_spec(s, id, nk, rows), cat_key_v(nm)) == kv_lookup(s, cat_key_v(nm)),
    decreases rows.len(),
{
    if rows.len() > 0 {
        crate::session::lemma_cat_key_not_row_key(nm, id, rows[0].take(nk));
        crate::kv::lemma_lookup_insert_other(
            s,
            key_bytes(id, rows[0].take(nk)),
            enc_row(rows[0].skip(nk)),
            cat_key_v(nm),
        );
        lemma_put_rows_catalog(
            kv_insert(s, key_bytes(id, rows[0].take(nk)), enc_row(rows[0].skip(nk))),
            id,
            nk,
            rows.drop_first(),
            nm,
        );
    }
}

/// Carries out a store-relation directive with the statement's rows, and
/// hands back the key ranges the orchestrator must delete after commit: on
/// `Replace`, the whole range of the relation's old id.
pub fn execute_relation(
    tx: &mut SessionTx,
    rows: &Vec<Tuple>,
    op: crate::program::RelationOp,
    meta: &InputRelationMeta,
) -> (r: Result<Vec<(Vec<u8>, Vec<u8>)>, Error>)
    requires
        old(tx).wf(),
        old(tx).write,
    ensures
        final(tx).wf(),
        final(tx).write == old(tx).write,
        (r is Ok && (op == crate::program::RelationOp::Create || op
            == crate::program::RelationOp::Replace)) ==> final(tx).relation_store_id == old(
            tx,
        ).relation_store_id + 1,
        (r is Ok && !(op == crate::program::RelationOp::Create || op
            == crate::program::RelationOp::Replace)) ==> final(tx).relation_store_id == old(
            tx,
        ).relation_store_id,
        r is Err ==> *final(tx) == *old(tx),
        r matches Err(e) ==> (e is StoredRelationConflict || e is StoredRelationNotFound || e
            is DbInit || e is ArityMismatch || e is TypeMismatch || e is SchemaIncompatible || e
            is EnsureFailed),
        op == crate::program::RelationOp::Create ==> ((r matches Err(e) && e is
        StoredRelationConflict) <==> kv_lookup(old(tx).store@, cat_key_v(meta.name@)) is Some),
        (op == crate::program::RelationOp::Put || op == crate::program::RelationOp::Rm || op
            == crate::program::RelationOp::Ensure || op
            == crate::program::RelationOp::EnsureNot) ==> ((r matches Err(e) && e is
        StoredRelationNotFound) <==> kv_lookup(old(tx).store@, cat_key_v(meta.name@)) is None),
        op != crate::program::RelationOp::Replace ==> (r matches Ok(cl) ==> cl@.len() == 0),
        (r matches Ok(cl) && op == crate::program::RelationOp::Create) ==> (catalog_entry(
            final(tx).store@,
            meta.name@,
        ) matches Some(h2) && h2.id == old(tx).relation_store_id + 1 && final(tx).store@
            == put_rows_spec(
            kv_insert(old(tx).store@, cat_key_v(meta.name@), enc_row(handle_vals(h2))),
            h2.id,
            meta.keys@.len() as int,
            tuples_view(rows@),
        )),
        (r matches Ok(cl) && op == crate::program::RelationOp::Put) ==> (catalog_entry(
            old(tx).store@,
            meta.name@,
        ) matches Some(h) && final(tx).store@ == put_rows_spec(
            old(tx).store@,
            h.id,
            h.keys.len() as int,
            tuples_view(rows@),
        ) && cols_compatible(h.keys, cols_view(meta.keys@))),
        (r matches Ok(cl) && op == crate::program::RelationOp::Rm) ==> (catalog_entry(
            old(tx).store@,
            meta.name@,
        ) matches Some(h) && final(tx).store@ == rm_rows_spec(
            old(tx).store@,
            h.id,
            h.keys.len() as int,
            tuples_view(rows@),
        )),
        (r is Ok && (op == crate::program::RelationOp::Ensure || op
            == crate::program::RelationOp::EnsureNot)) ==> *final(tx) == *old(tx),
        (r is Ok && op == crate::program::RelationOp::Ensure) ==> (catalog_entry(
            old(tx).store@,
            meta.name@,
        ) matches Some(h) && (forall|i: int|
            0 <= i < tuples_view(rows@).len() ==> kv_lookup(
                old(tx).store@,
                key_bytes(h.id, (#[trigger] tuples_view(rows@)[i]).take(h.keys.len() as int)),
            ) == Some(enc_row(tuples_view(rows@)[i].skip(h.keys.len() as int))))),
        (r is Ok && op == crate::program::RelationOp::EnsureNot) ==> (catalog_entry(
            old(tx).store@,
            meta.name@,
        ) matches Some(h) && (forall|i: int|
            0 <= i < tuples_view(rows@).len() ==> kv_lookup(
                old(tx).store@,
                key_bytes(h.id, (#[trigger] tuples_view(rows@)[i]).take(h.keys.len() as int)),
            ) is None)),
        op == crate::program::RelationOp::Create ==> ((kv_lookup(
            old(tx).store@,
            cat_key_v(meta.name@),
        ) is None && rows_ok(cols_view(meta.keys@), cols_view(meta.non_keys@), tuples_view(rows@))
            && old(tx).relation_store_id < u64::MAX && meta.keys@.len()
            < crate::relation::MAX_HANDLE_PART && meta.non_keys@.len()
            < crate::relation::MAX_HANDLE_PART) ==> r is Ok),
        op == crate::program::RelationOp::Replace ==> ((rows_ok(
            cols_view(meta.keys@),
            cols_view(meta.non_keys@),
            tuples_view(rows@),
        ) && old(tx).relation_store_id < u64::MAX && meta.keys@.len()
            < crate::relation::MAX_HANDLE_PART && meta.non_keys@.len()
            < crate::relation::MAX_HANDLE_PART && (kv_lookup(
            old(tx).store@,
            cat_key_v(meta.name@),
        ) is Some ==> (catalog_entry(old(tx).store@, meta.name@) matches Some(hold) && hold.id
            < u64::MAX))) ==> r is Ok),
        op == crate::program::RelationOp::Put ==> ((catalog_entry(
            old(tx).store@,
            meta.name@,
        ) matches Some(h) && cols_compatible(h.keys, cols_view(meta.keys@)) && cols_compatible(
            h.non_keys,
            cols_view(meta.non_keys@),
        ) && rows_ok(h.keys, h.non_keys, tuples_view(rows@))) ==> r is Ok),
        op == crate::program::RelationOp::Rm ==> ((catalog_entry(
            old(tx).store@,
            meta.name@,
        ) matches Some(h) && cols_compatible(h.keys, cols_view(meta.keys@)) && cols_compatible(
            h.non_keys,
            cols_view(meta.non_keys@),
        ) && rows_key_ok(h.keys, tuples_view(rows@))) ==> r is Ok),
        op == crate::program::RelationOp::Ensure ==> ((catalog_entry(
            old(tx).store@,
            meta.name@,
        ) matches Some(h) && cols_compatible(h.keys, cols_view(meta.keys@)) && cols_compatible(
            h.non_keys,
            cols_view(meta.non_keys@),
        ) && rows_key_ok(h.keys, tuples_view(rows@)) && (forall|i: int|
            0 <= i < tuples_view(rows@).len() ==> kv_lookup(
                old(tx).store@,
                key_bytes(h.id, (#[trigger] tuples_view(rows@)[i]).take(h.keys.len() as int)),
            ) == Some(enc_row(tuples_view(rows@)[i].skip(h.keys.len() as int))))) ==> r is Ok),
        op == crate::program::RelationOp::EnsureNot ==> ((catalog_entry(
            old(tx).store@,
            meta.name@,
        ) matches Some(h) && cols_compatible(h.keys, cols_view(meta.keys@)) && cols_compatible(
            h.non_keys,
            cols_view(meta.non_keys@),
        ) && rows_key_ok(h.keys, tuples_view(rows@)) && (forall|i: int|
            0 <= i < tuples_view(rows@).len() ==> kv_lookup(
                old(tx).store@,
                key_bytes(h.id, (#[trigger] tuples_view(rows@)[i]).take(h.keys.len() as int)),
            ) is None)) ==> r is Ok),
        op == crate::program::RelationOp::Replace ==> (r matches Ok(cl) ==> (catalog_entry(
            final(tx).store@,
            meta.name@,
        ) matches Some(h2) && h2.id == old(tx).relation_store_id + 1 && (match catalog_entry(
            old(tx).store@,
            meta.name@,
        ) {
            Some(hold) => cl@.len() == 1 && cl@[0].0@ == range_lower(hold.id) && cl@[0].1@
                == range_lower((hold.id + 1) as u64) && final(tx).store@ == put_rows_spec(
                kv_insert(
                    kv_remove(old(tx).store@, cat_key_v(meta.name@)),
                    cat_key_v(meta.name@),
                    enc_row(handle_vals(h2)),
                ),
                h2.id,
                meta.keys@.len() as int,
                tuples_view(rows@),
            ),
            None => cl@.len() == 0 && final(tx).store@ == put_rows_spec(
                kv_insert(old(tx).store@, cat_key_v(meta.name@), enc_row(handle_vals(h2))),
                h2.id,
                meta.keys@.len() as int,
                tuples_view(rows@),
            ),
        }))),
{
    let mut cleanups: Vec<(Vec<u8>, Vec<u8>)> = Vec::new();
    match op {
        crate::program::RelationOp::Create => {
            if tx.relation_exists(&meta.name) {
                return Err(Error::StoredRelationConflict(crate::value::clone_bytes(
                    &meta.name,
                )));
            }
            match validate_rows(&meta.keys, &meta.non_keys, rows, &meta.name) {
                Ok(_) => {},
                Err(e) => {
                    return Err(e);
                },
            }
            let h = match tx.create_relation(meta) {
                Ok(h) => h,
                Err(e) => {
                    return Err(e);
                },
            };
            let nk = meta.keys.len();
            proof {
                assert(h@.keys.len() == cols_view(meta.keys@).len());
                assert forall|i: int|
                    0 <= i < tuples_view(rows@).len() implies (#[trigger] tuples_view(
                    rows@,
                )[i]).len() >= nk by {
                    assert(row_ok(
                        cols_view(meta.keys@),
                        cols_view(meta.non_keys@),
                        tuples_view(rows@)[i],
                    ));
                }
            }
            put_rows(tx, &h, nk, rows);
            proof {
                lemma_put_rows_catalog(
                    kv_insert(old(tx).store@, cat_key_v(meta.name@), enc_row(handle_vals(h@))),
                    h@.id,
                    nk as int,
                    tuples_view(rows@),
                    meta.name@,
                );
            }
            Ok(cleanups)
        },
        crate::program::RelationOp::Replace => {
            match validate_rows(&meta.keys, &meta.non_keys, rows, &meta.name) {
                Ok(_) => {},
                Err(e) => {
                    return Err(e);
                },
            }
            if tx.relation_store_id == u64::MAX {
                return Err(Error::DbInit);
            }
            if meta.keys.len() >= 0x1000_0000 || meta.non_keys.len() >= 0x1000_0000 {
                return Err(Error::DbInit);
            }
            if tx.relation_exists(&meta.name) {
                let (lo, hi) = match tx.destroy_relation(&meta.name) {
                    Ok(b) => b,
                    Err(e) => {
                        return Err(e);
                    },
                };
                proof {
                    crate::kv::lemma_lookup_remove(
                        old(tx).store@,
                        cat_key_v(meta.name@),
                        cat_key_v(meta.name@),
                    );
                }
                cleanups.push((lo, hi));
            }
            let ghost midstore = tx.store@;
            let h = match tx.create_relation(meta) {
                Ok(h) => h,
                Err(e) => {
                    // the name was just unbound and the size bounds were
                    // checked above: creation cannot refuse here
                    proof {
                        assert(false);
                    }
                    return Err(e);
                },
            };
            let nk = meta.keys.len();
            proof {
                assert forall|i: int|
                    0 <= i < tuples_view(rows@).len() implies (#[trigger] tuples_view(
                    rows@,
                )[i]).len() >= nk by {
                    assert(row_ok(
                        cols_view(meta.keys@),
                        cols_view(meta.non_keys@),
                        tuples_view(rows@)[i],
                    ));
                }
            }
            put_rows(tx, &h, nk, rows);
            proof {
                lemma_put_rows_catalog(
                    kv_insert(midstore, cat_key_v(meta.name@), enc_row(handle_vals(h@))),
                    h@.id,
                    nk as int,
                    tuples_view(rows@),
                    meta.name@,
                );
            }
            Ok(cleanups)
        },
        crate::program::RelationOp::Put | crate::program::RelationOp::Rm
            | crate::program::RelationOp::Ensure | crate::program::RelationOp::EnsureNot => {
            let h = match tx.get_relation(&meta.name) {
                Ok(h) => h,
                Err(e) => {
                    return Err(e);
                },
            };
            if !ensure_compatible(&h, meta) {
                return Err(Error::SchemaIncompatible(crate::value::clone_bytes(&meta.name)));
            }
            let nk = h.keys.len();
            proof {
                assert(h@.keys.len() == nk);
            }
            match op {
                crate::program::RelationOp::Put => {
                    match validate_rows(&h.keys, &h.non_keys, rows, &meta.name) {
                        Ok(_) => {},
                        Err(e) => {
                            return Err(e);
                        },
                    }
                    proof {
                        assert forall|i: int|
                            0 <= i < tuples_view(rows@).len() implies (#[trigger] tuples_view(
                            rows@,
                        )[i]).len() >= nk by {
                            assert(row_ok(
                                cols_view(h.keys@),
                                cols_view(h.non_keys@),
                                tuples_view(rows@)[i],
                            ));
                        }
                    }
                    put_rows(tx, &h, nk, rows);
                    Ok(cleanups)
                },
                crate::program::RelationOp::Rm => {
                    match validate_row_keys(&h.keys, rows, &meta.name) {
                        Ok(_) => {},
                        Err(e) => {
                            return Err(e);
                        },
                    }
                    proof {
                        assert forall|i: int|
                            0 <= i < tuples_view(rows@).len() implies (#[trigger] tuples_view(
                            rows@,
                        )[i]).len() >= nk by {
                            assert(row_key_ok(cols_view(h.keys@), tuples_view(rows@)[i]));
                        }
                    }
                    rm_rows(tx, &h, nk, rows);
                    Ok(cleanups)
                },
                _ => {
                    let want_present = matches!(op, crate::program::RelationOp::Ensure);
                    match validate_row_keys(&h.keys, rows, &meta.name) {
                        Ok(_) => {},
                        Err(e) => {
                            return Err(e);
                        },
                    }
                    let ghost rv = tuples_view(rows@);
                    let mut i: usize = 0;
                    while i < rows.len()
                        invariant
                            0 <= i <= rows@.len(),
                            rv == tuples_view(rows@),
                            rv.len() == rows@.len(),
                            tx.wf(),
                            *tx == *old(tx),
                            catalog_entry(old(tx).store@, meta.name@) == Some(h@),
                            rows_key_ok(cols_view(h.keys@), rv),
                            h@.keys.len() == nk,
                            want_present == (op == crate::program::RelationOp::Ensure),
                            op == crate::program::RelationOp::Ensure || op
                                == crate::program::RelationOp::EnsureNot,
                            kv_lookup(tx.store@, cat_key_v(meta.name@)) is Some,
                            forall|j: int|
                                0 <= j < i ==> (if want_present {
                                    kv_lookup(
                                        tx.store@,
                                        key_bytes(
                                            h@.id,
                                            (#[trigger] rv[j]).take(nk as int),
                                        ),
                                    ) == Some(enc_row(rv[j].skip(nk as int)))
                                } else {
                                    kv_lookup(
                                        tx.store@,
                                        key_bytes(h@.id, (#[trigger] rv[j]).take(nk as int)),
                                    ) is None
                                }),
                        decreases rows@.len() - i,
                    {
                        proof {
                            assert(rv[i as int] == rows@[i as int]@);
                            assert(row_key_ok(cols_view(h.keys@), rv[i as int]));
                        }
                        let (kt, vt) = split_row(&rows[i], nk);
                        let found = tx.get_row(&h, &kt);
                        if want_present {
                            match found {
                                None => {
                                    return Err(Error::EnsureFailed(rows[i].duplicate()));
                                },
                                Some(bytes) => {
                                    let mut expect: Vec<u8> = Vec::new();
                                    encode_row(&mut expect, &vt);
                                    proof {
                                        assert(expect@ =~= enc_row(rv[i as int].skip(nk as int)));
                                    }
                                    if !crate::lex::bytes_eq(&bytes, &expect) {
                                        return Err(Error::EnsureFailed(rows[i].duplicate()));
                                    }
                                },
                            }
                        } else {
                            match found {
                                Some(_) => {
                                    return Err(Error::EnsureFailed(rows[i].duplicate()));
                                },
                                None => {},
                            }
                        }
                        i = i + 1;
                    }
                    Ok(cleanups)
                },
            }
        },
    }
}

} // verus!
