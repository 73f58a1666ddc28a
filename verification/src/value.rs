//! The value domain of the runtime: the tagged data values that tuples are
//! made of, and their mathematical model.

use vstd::prelude::*;

verus! {

/// Mathematical model of a data value.
pub enum Val {
    Null,
    Bool(bool),
    Int(i64),
    /// UTF-8 bytes of a string value.
    Str(Seq<u8>),
    Bytes(Seq<u8>),
    List(Seq<Val>),
    /// A map of key-value pairs, kept in insertion order.
    Dict(Seq<(Val, Val)>),
    /// Sentinel that sorts after every other value; used to build exclusive
    /// upper bounds over the whole id space.
    Bot,
}

/// A data value. Strings are carried as their UTF-8 bytes.
#[derive(Debug)]
pub enum DataValue {
    Null,
    Bool(bool),
    Int(i64),
    Str(Vec<u8>),
    Bytes(Vec<u8>),
    List(Vec<DataValue>),
    Dict(Vec<(DataValue, DataValue)>),
    Bot,
}

/// The model of a data value, element by element.
pub open spec fn dval_view(v: DataValue) -> Val
    decreases v, 0int, 0int,
{
    match v {
        DataValue::Null => Val::Null,
        DataValue::Bool(b) => Val::Bool(b),
        DataValue::Int(i) => Val::Int(i),
        DataValue::Str(s) => Val::Str(s@),
        DataValue::Bytes(s) => Val::Bytes(s@),
        DataValue::List(items) => Val::List(dvals_view(items@, 0)),
        DataValue::Dict(pairs) => Val::Dict(dpairs_view(pairs@, 0)),
        DataValue::Bot => Val::Bot,
    }
}

pub open spec fn dvals_view(vs: Seq<DataValue>, i: int) -> Seq<Val>
    decreases vs, 1int, vs.len() - i,
{
    if i < 0 || i >= vs.len() {
        Seq::empty()
    } else {
        seq![dval_view(vs[i])] + dvals_view(vs, i + 1)
    }
}

pub open spec fn dpairs_view(ps: Seq<(DataValue, DataValue)>, i: int) -> Seq<(Val, Val)>
    decreases ps, 1int, ps.len() - i,
{
    if i < 0 || i >= ps.len() {
        Seq::empty()
    } else {
        seq![(dval_view(ps[i].0), dval_view(ps[i].1))] + dpairs_view(ps, i + 1)
    }
}

/// Element views of a list, position by position.
pub proof fn lemma_dvals_view_index(vs: Seq<DataValue>, i: int)
    requires
        0 <= i <= vs.len(),
    ensures
        dvals_view(vs, i).len() == vs.len() - i,
        forall|j: int|
            i <= j < vs.len() ==> #[trigger] dvals_view(vs, i)[j - i] == dval_view(vs[j]),
    decreases vs.len() - i,
{
    if i < vs.len() {
        lemma_dvals_view_index(vs, i + 1);
        assert forall|j: int| i <= j < vs.len() implies #[trigger] dvals_view(vs, i)[j - i]
            == dval_view(vs[j]) by {
            if j == i {
                assert(dvals_view(vs, i)[0] == dval_view(vs[i]));
            } else {
                assert(dvals_view(vs, i)[j - i] == dvals_view(vs, i + 1)[j - (i + 1)]);
                assert(dvals_view(vs, i + 1)[j - (i + 1)] == dval_view(vs[j]));
            }
        }
    }
}

pub proof fn lemma_dpairs_view_index(ps: Seq<(DataValue, DataValue)>, i: int)
    requires
        0 <= i <= ps.len(),
    ensures
        dpairs_view(ps, i).len() == ps.len() - i,
        forall|j: int|
            i <= j < ps.len() ==> #[trigger] dpairs_view(ps, i)[j - i] == (
                dval_view(ps[j].0),
                dval_view(ps[j].1),
            ),
    decreases ps.len() - i,
{
    if i < ps.len() {
        lemma_dpairs_view_index(ps, i + 1);
        assert forall|j: int| i <= j < ps.len() implies #[trigger] dpairs_view(ps, i)[j - i] == (
            dval_view(ps[j].0),
            dval_view(ps[j].1),
        ) by {
            if j == i {
                assert(dpairs_view(ps, i)[0] == (dval_view(ps[i].0), dval_view(ps[i].1)));
            } else {
                assert(dpairs_view(ps, i)[j - i] == dpairs_view(ps, i + 1)[j - (i + 1)]);
                assert(dpairs_view(ps, i + 1)[j - (i + 1)] == (
                    dval_view(ps[j].0),
                    dval_view(ps[j].1),
                ));
            }
        }
    }
}

/// Element views of a whole list.
pub proof fn lemma_dvals_view_all(vs: Seq<DataValue>)
    ensures
        dvals_view(vs, 0).len() == vs.len(),
        forall|j: int| 0 <= j < vs.len() ==> #[trigger] dvals_view(vs, 0)[j] == dval_view(vs[j]),
{
    lemma_dvals_view_index(vs, 0);
    assert forall|j: int| 0 <= j < vs.len() implies #[trigger] dvals_view(vs, 0)[j] == dval_view(
        vs[j],
    ) by {
        assert(dvals_view(vs, 0)[j - 0] == dval_view(vs[j]));
    }
}

/// Entry views of a whole map.
pub proof fn lemma_dpairs_view_all(ps: Seq<(DataValue, DataValue)>)
    ensures
        dpairs_view(ps, 0).len() == ps.len(),
        forall|j: int|
            0 <= j < ps.len() ==> #[trigger] dpairs_view(ps, 0)[j] == (
                dval_view(ps[j].0),
                dval_view(ps[j].1),
            ),
{
    lemma_dpairs_view_index(ps, 0);
    assert forall|j: int| 0 <= j < ps.len() implies #[trigger] dpairs_view(ps, 0)[j] == (
        dval_view(ps[j].0),
        dval_view(ps[j].1),
    ) by {
        assert(dpairs_view(ps, 0)[j - 0] == (dval_view(ps[j].0), dval_view(ps[j].1)));
    }
}

impl View for DataValue {
    type V = Val;

    open spec fn view(&self) -> Val {
        dval_view(*self)
    }
}

/// Copies a byte string, keeping its contents.
pub fn clone_bytes(v: &Vec<u8>) -> (r: Vec<u8>)
    ensures
        r@ == v@,
{
    let mut r: Vec<u8> = Vec::new();
    let mut i: usize = 0;
    while i < v.len()
        invariant
            0 <= i <= v@.len(),
            r@ =~= v@.take(i as int),
        decreases v@.len() - i,
    {
        r.push(v[i]);
        proof {
            assert(r@ =~= v@.take(i + 1 as int));
        }
        i = i + 1;
    }
    proof {
        assert(v@.take(v@.len() as int) =~= v@);
    }
    r
}

impl DataValue {
    /// Copies the value, keeping its model.
    pub fn duplicate(&self) -> (r: DataValue)
        ensures
            r@ == self@,
        decreases *self, 0int, 0int,
    {
        match self {
            DataValue::Null => DataValue::Null,
            DataValue::Bool(b) => DataValue::Bool(*b),
            DataValue::Int(i) => DataValue::Int(*i),
            DataValue::Str(s) => DataValue::Str(clone_bytes(s)),
            DataValue::Bytes(s) => DataValue::Bytes(clone_bytes(s)),
            DataValue::List(items) => {
                let mut out: Vec<DataValue> = Vec::new();
                let mut i: usize = 0;
                while i < items.len()
                    invariant
                        0 <= i <= items@.len(),
                        *self == DataValue::List(*items),
                        out@.len() == i,
                        forall|j: int| 0 <= j < i ==> #[trigger] out@[j]@ == items@[j]@,
                    decreases items@.len() - i, 0int, 0int,
                {
                    proof {
                        assert(decreases_to!(*self => (*self)->List_0));
                        assert(decreases_to!((*self)->List_0 => (*self)->List_0@));
                        assert(decreases_to!((*self)->List_0@ => (*self)->List_0@[i as int]));
                        assert((*self)->List_0@[i as int] == items@[i as int]);
                        assert(decreases_to!(*self => items@[i as int]));
                    }
                    let d = items[i].duplicate();
                    out.push(d);
                    i = i + 1;
                }
                let r = DataValue::List(out);
                proof {
                    lemma_dvals_view_all(out@);
                    lemma_dvals_view_all(items@);
                    assert forall|j: int| 0 <= j < out@.len() implies #[trigger] dvals_view(
                        out@,
                        0,
                    )[j] == dvals_view(items@, 0)[j] by {
                        assert(out@[j]@ == items@[j]@);
                        assert(dvals_view(out@, 0)[j] == dval_view(out@[j]));
                        assert(dvals_view(items@, 0)[j] == dval_view(items@[j]));
                        assert(dval_view(out@[j]) == out@[j]@);
                        assert(dval_view(items@[j]) == items@[j]@);
                    }
                    assert(dvals_view(out@, 0) =~= dvals_view(items@, 0));
                }
                r
            },
            DataValue::Dict(pairs) => {
                let mut out: Vec<(DataValue, DataValue)> = Vec::new();
                let mut i: usize = 0;
                while i < pairs.len()
                    invariant
                        0 <= i <= pairs@.len(),
                        *self == DataValue::Dict(*pairs),
                        out@.len() == i,
                        forall|j: int|
                            0 <= j < i ==> (#[trigger] out@[j]).0@ == pairs@[j].0@
                                && out@[j].1@ == pairs@[j].1@,
                    decreases pairs@.len() - i, 0int, 0int,
                {
                    proof {
                        assert(decreases_to!(*self => (*self)->Dict_0));
                        assert(decreases_to!((*self)->Dict_0 => (*self)->Dict_0@));
                        assert(decreases_to!((*self)->Dict_0@ => (*self)->Dict_0@[i as int]));
                        assert(decreases_to!((*self)->Dict_0@[i as int] => (*self)->Dict_0@[
                            i as int].0));
                        assert(decreases_to!((*self)->Dict_0@[i as int] => (*self)->Dict_0@[
                            i as int].1));
                        assert((*self)->Dict_0@[i as int] == pairs@[i as int]);
                        assert(decreases_to!(*self => pairs@[i as int].0));
                        assert(decreases_to!(*self => pairs@[i as int].1));
                    }
                    let k = pairs[i].0.duplicate();
                    let v = pairs[i].1.duplicate();
                    out.push((k, v));
                    i = i + 1;
                }
                let r = DataValue::Dict(out);
                proof {
                    lemma_dpairs_view_all(out@);
                    lemma_dpairs_view_all(pairs@);
                    assert forall|j: int| 0 <= j < out@.len() implies #[trigger] dpairs_view(
                        out@,
                        0,
                    )[j] == dpairs_view(pairs@, 0)[j] by {
                        assert(dpairs_view(out@, 0)[j] == (
                            dval_view(out@[j].0),
                            dval_view(out@[j].1),
                        ));
                        assert(dpairs_view(pairs@, 0)[j] == (
                            dval_view(pairs@[j].0),
                            dval_view(pairs@[j].1),
                        ));
                    }
                    assert(dpairs_view(out@, 0) =~= dpairs_view(pairs@, 0));
                }
                r
            },
            DataValue::Bot => DataValue::Bot,
        }
    }

    /// Structural equality of two values.
    pub fn same_as(&self, other: &DataValue) -> (r: bool)
        ensures
            r == (self@ == other@),
        decreases *self, 0int, 0int,
    {
        match (self, other) {
            (DataValue::Null, DataValue::Null) => true,
            (DataValue::Bool(a), DataValue::Bool(b)) => a == b,
            (DataValue::Int(a), DataValue::Int(b)) => a == b,
            (DataValue::Str(a), DataValue::Str(b)) => crate::lex::bytes_eq(a, b),
            (DataValue::Bytes(a), DataValue::Bytes(b)) => crate::lex::bytes_eq(a, b),
            (DataValue::List(a), DataValue::List(b)) => {
                proof {
                    lemma_dvals_view_all(a@);
                    lemma_dvals_view_all(b@);
                }
                if a.len() != b.len() {
                    return false;
                }
                let mut i: usize = 0;
                while i < a.len()
                    invariant
                        0 <= i <= a@.len(),
                        a@.len() == b@.len(),
                        *self == DataValue::List(*a),
                        *other == DataValue::List(*b),
                        self@ == Val::List(dvals_view(a@, 0)),
                        other@ == Val::List(dvals_view(b@, 0)),
                        dvals_view(a@, 0).len() == a@.len(),
                        dvals_view(b@, 0).len() == b@.len(),
                        forall|j: int|
                            0 <= j < a@.len() ==> #[trigger] dvals_view(a@, 0)[j] == dval_view(
                                a@[j],
                            ),
                        forall|j: int|
                            0 <= j < b@.len() ==> #[trigger] dvals_view(b@, 0)[j] == dval_view(
                                b@[j],
                            ),
                        forall|j: int| 0 <= j < i ==> #[trigger] a@[j]@ == b@[j]@,
                    decreases a@.len() - i, 0int, 0int,
                {
                    proof {
                        assert(decreases_to!(*self => (*self)->List_0));
                        assert(decreases_to!((*self)->List_0 => (*self)->List_0@));
                        assert(decreases_to!((*self)->List_0@ => (*self)->List_0@[i as int]));
                        assert((*self)->List_0@[i as int] == a@[i as int]);
                        assert(decreases_to!(*self => a@[i as int]));
                    }
                    if !a[i].same_as(&b[i]) {
                        proof {
                            assert(dvals_view(a@, 0)[i as int] != dvals_view(b@, 0)[i as int]);
                        }
                        return false;
                    }
                    i = i + 1;
                }
                proof {
                    assert forall|j: int| 0 <= j < a@.len() implies #[trigger] dvals_view(
                        a@,
                        0,
                    )[j] == dvals_view(b@, 0)[j] by {
                        assert(a@[j]@ == b@[j]@);
                    }
                    assert(dvals_view(a@, 0) =~= dvals_view(b@, 0));
                }
                true
            },
            (DataValue::Dict(a), DataValue::Dict(b)) => {
                proof {
                    lemma_dpairs_view_all(a@);
                    lemma_dpairs_view_all(b@);
                }
                if a.len() != b.len() {
                    return false;
                }
                let mut i: usize = 0;
                while i < a.len()
                    invariant
                        0 <= i <= a@.len(),
                        a@.len() == b@.len(),
                        *self == DataValue::Dict(*a),
                        *other == DataValue::Dict(*b),
                        self@ == Val::Dict(dpairs_view(a@, 0)),
                        other@ == Val::Dict(dpairs_view(b@, 0)),
                        dpairs_view(a@, 0).len() == a@.len(),
                        dpairs_view(b@, 0).len() == b@.len(),
                        forall|j: int|
                            0 <= j < a@.len() ==> #[trigger] dpairs_view(a@, 0)[j] == (
                                dval_view(a@[j].0),
                                dval_view(a@[j].1),
                            ),
                        forall|j: int|
                            0 <= j < b@.len() ==> #[trigger] dpairs_view(b@, 0)[j] == (
                                dval_view(b@[j].0),
                                dval_view(b@[j].1),
                            ),
                        forall|j: int|
                            0 <= j < i ==> #[trigger] a@[j].0@ == b@[j].0@ && a@[j].1@
                                == b@[j].1@,
                    decreases a@.len() - i, 0int, 0int,
                {
                    proof {
                        assert(decreases_to!(*self => (*self)->Dict_0));
                        assert(decreases_to!((*self)->Dict_0 => (*self)->Dict_0@));
                        assert(decreases_to!((*self)->Dict_0@ => (*self)->Dict_0@[i as int]));
                        assert(decreases_to!((*self)->Dict_0@[i as int] => (*self)->Dict_0@[
                            i as int].0));
                        assert(decreases_to!((*self)->Dict_0@[i as int] => (*self)->Dict_0@[
                            i as int].1));
                        assert((*self)->Dict_0@[i as int] == a@[i as int]);
                        assert(decreases_to!(*self => a@[i as int].0));
                        assert(decreases_to!(*self => a@[i as int].1));
                    }
                    if !a[i].0.same_as(&b[i].0) {
                        proof {
                            assert(dpairs_view(a@, 0)[i as int] != dpairs_view(b@, 0)[i as int]);
                        }
                        return false;
                    }
                    if !a[i].1.same_as(&b[i].1) {
                        proof {
                            assert(dpairs_view(a@, 0)[i as int] != dpairs_view(b@, 0)[i as int]);
                        }
                        return false;
                    }
                    i = i + 1;
                }
                proof {
                    assert forall|j: int| 0 <= j < a@.len() implies #[trigger] dpairs_view(
                        a@,
                        0,
                    )[j] == dpairs_view(b@, 0)[j] by {
                        assert(a@[j].0@ == b@[j].0@ && a@[j].1@ == b@[j].1@);
                    }
                    assert(dpairs_view(a@, 0) =~= dpairs_view(b@, 0));
                }
                true
            },
            (DataValue::Bot, DataValue::Bot) => true,
            _ => false,
        }
    }
}

/// The model of a sequence of data values.
pub open spec fn row_view(vs: Seq<DataValue>) -> Seq<Val> {
    vs.map_values(|v: DataValue| v@)
}

/// The element-by-element view of a list is its mapped view.
pub proof fn lemma_dvals_view_eq_row(vs: Seq<DataValue>)
    ensures
        dvals_view(vs, 0) == row_view(vs),
{
    lemma_dvals_view_all(vs);
    assert forall|j: int| 0 <= j < vs.len() implies #[trigger] dvals_view(vs, 0)[j] == row_view(
        vs,
    )[j] by {
        assert(row_view(vs)[j] == vs[j]@);
    }
    assert(dvals_view(vs, 0) =~= row_view(vs));
}

/// The model of a sequence of key-value pairs.
pub open spec fn pairs_vv(ps: Seq<(DataValue, DataValue)>) -> Seq<(Val, Val)> {
    ps.map_values(|p: (DataValue, DataValue)| (p.0@, p.1@))
}

pub proof fn lemma_dpairs_view_eq(ps: Seq<(DataValue, DataValue)>)
    ensures
        dpairs_view(ps, 0) == pairs_vv(ps),
{
    lemma_dpairs_view_all(ps);
    assert forall|j: int| 0 <= j < ps.len() implies #[trigger] dpairs_view(ps, 0)[j] == pairs_vv(
        ps,
    )[j] by {
        assert(pairs_vv(ps)[j] == (ps[j].0@, ps[j].1@));
    }
    assert(dpairs_view(ps, 0) =~= pairs_vv(ps));
}

/// Appending a value appends its model.
pub proof fn lemma_row_view_push(s: Seq<DataValue>, v: DataValue)
    ensures
        row_view(s.push(v)) == row_view(s).push(v@),
{
    assert forall|j: int| 0 <= j < s.len() + 1 implies #[trigger] row_view(s.push(v))[j]
        == row_view(s).push(v@)[j] by {
        if j < s.len() {
            assert(s.push(v)[j] == s[j]);
        } else {
            assert(s.push(v)[j] == v);
        }
    }
    assert(row_view(s.push(v)) =~= row_view(s).push(v@));
}

/// An ordered sequence of data values: one row of a relation.
#[derive(Debug)]
pub struct Tuple(pub Vec<DataValue>);

impl View for Tuple {
    type V = Seq<Val>;

    open spec fn view(&self) -> Seq<Val> {
        row_view(self.0@)
    }
}

impl Tuple {
    /// The empty tuple: encoded with a relation id it yields the lower bound
    /// of that relation's key range.
    pub fn empty() -> (r: Tuple)
        ensures
            r@ =~= Seq::<Val>::empty(),
    {
        Tuple(Vec::new())
    }

    /// Copies the tuple, keeping its model.
    pub fn duplicate(&self) -> (r: Tuple)
        ensures
            r@ == self@,
    {
        let mut out: Vec<DataValue> = Vec::new();
        let mut i: usize = 0;
        while i < self.0.len()
            invariant
                0 <= i <= self.0@.len(),
                out@.len() == i,
                forall|j: int| 0 <= j < i ==> out@[j]@ == self.0@[j]@,
            decreases self.0@.len() - i,
        {
            out.push(self.0[i].duplicate());
            i = i + 1;
        }
        let r = Tuple(out);
        proof {
            assert forall|j: int| 0 <= j < r@.len() implies r@[j] == self@[j] by {
                assert(r.0@[j]@ == self.0@[j]@);
            }
            assert(r@ =~= self@);
        }
        r
    }

    /// Structural equality of two tuples.
    pub fn same_as(&self, other: &Tuple) -> (r: bool)
        ensures
            r == (self@ == other@),
    {
        if self.0.len() != other.0.len() {
            proof {
                assert(self@.len() == self.0@.len());
                assert(other@.len() == other.0@.len());
            }
            return false;
        }
        let mut i: usize = 0;
        while i < self.0.len()
            invariant
                0 <= i <= self.0@.len(),
                self.0@.len() == other.0@.len(),
                forall|j: int| 0 <= j < i ==> self@[j] == other@[j],
            decreases self.0@.len() - i,
        {
            if !self.0[i].same_as(&other.0[i]) {
                proof {
                    assert(self@[i as int] != other@[i as int]);
                }
                return false;
            }
            i = i + 1;
        }
        proof {
            assert(self@ =~= other@);
        }
        true
    }
}

} // verus!
