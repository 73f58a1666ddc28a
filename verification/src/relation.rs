//! Stored relations: ids, column metadata, the persistent relation handle,
//! and the key encoding that brackets each relation's rows inside the store.

use vstd::prelude::*;

use crate::codec::{
    be8, be8_exec, decode_row, dec_row, enc_row, lemma_be8_order, wf_row, wf_val,
};
use crate::lex::{lex_lt, lemma_lex_extend, lemma_lex_prefix_le, lemma_lex_trichotomy};
use crate::value::{row_view, DataValue, Tuple, Val};

verus! {

/// A 64-bit identifier of a stored relation. Id `0` is the system catalog.
#[derive(Clone, Copy, PartialEq, Eq, Structural)]
pub struct RelationId(pub u64);

impl RelationId {
    pub open spec fn spec_next(self) -> RelationId {
        RelationId((self.0 + 1) as u64)
    }

    /// The successor id: the exclusive upper bound of this relation's range.
    pub fn next(self) -> (r: RelationId)
        requires
            self.0 < u64::MAX,
        ensures
            r == self.spec_next(),
    {
        RelationId(self.0 + 1)
    }
}

/// Semantic type of a column.
#[derive(Clone, Copy, PartialEq, Eq, Structural)]
pub enum ColType {
    Any,
    Bool,
    Int,
    Str,
    Bytes,
}

impl ColType {
    pub open spec fn spec_code(self) -> i64 {
        match self {
            ColType::Any => 0,
            ColType::Bool => 1,
            ColType::Int => 2,
            ColType::Str => 3,
            ColType::Bytes => 4,
        }
    }

    pub fn code(self) -> (r: i64)
        ensures
            r == self.spec_code(),
            0 <= r <= 4,
    {
        match self {
            ColType::Any => 0,
            ColType::Bool => 1,
            ColType::Int => 2,
            ColType::Str => 3,
            ColType::Bytes => 4,
        }
    }

    pub open spec fn spec_from_code(c: i64) -> Option<ColType> {
        if c == 0 {
            Some(ColType::Any)
        } else if c == 1 {
            Some(ColType::Bool)
        } else if c == 2 {
            Some(ColType::Int)
        } else if c == 3 {
            Some(ColType::Str)
        } else if c == 4 {
            Some(ColType::Bytes)
        } else {
            None
        }
    }

    pub fn from_code(c: i64) -> (r: Option<ColType>)
        ensures
            r == ColType::spec_from_code(c),
    {
        if c == 0 {
            Some(ColType::Any)
        } else if c == 1 {
            Some(ColType::Bool)
        } else if c == 2 {
            Some(ColType::Int)
        } else if c == 3 {
            Some(ColType::Str)
        } else if c == 4 {
            Some(ColType::Bytes)
        } else {
            None
        }
    }

    /// Whether a value inhabits this column type; null is accepted anywhere.
    pub open spec fn spec_admits(self, v: Val) -> bool {
        match self {
            ColType::Any => true,
            ColType::Bool => v is Bool || v is Null,
            ColType::Int => v is Int || v is Null,
            ColType::Str => v is Str || v is Null,
            ColType::Bytes => v is Bytes || v is Null,
        }
    }

    pub fn admits(self, v: &DataValue) -> (r: bool)
        ensures
            r == self.spec_admits(v@),
    {
        match self {
            ColType::Any => true,
            ColType::Bool => matches!(v, DataValue::Bool(_) | DataValue::Null),
            ColType::Int => matches!(v, DataValue::Int(_) | DataValue::Null),
            ColType::Str => matches!(v, DataValue::Str(_) | DataValue::Null),
            ColType::Bytes => matches!(v, DataValue::Bytes(_) | DataValue::Null),
        }
    }
}

/// Access level of a stored relation; enforcement is the catalog's policy.
#[derive(Clone, Copy, PartialEq, Eq, Structural, Debug)]
pub enum AccessLevel {
    Normal,
    Protected,
    ReadOnly,
    Hidden,
}

impl AccessLevel {
    pub open spec fn spec_code(self) -> i64 {
        match self {
            AccessLevel::Normal => 0,
            AccessLevel::Protected => 1,
            AccessLevel::ReadOnly => 2,
            AccessLevel::Hidden => 3,
        }
    }

    pub fn code(self) -> (r: i64)
        ensures
            r == self.spec_code(),
    {
        match self {
            AccessLevel::Normal => 0,
            AccessLevel::Protected => 1,
            AccessLevel::ReadOnly => 2,
            AccessLevel::Hidden => 3,
        }
    }

    pub open spec fn spec_from_code(c: i64) -> Option<AccessLevel> {
        if c == 0 {
            Some(AccessLevel::Normal)
        } else if c == 1 {
            Some(AccessLevel::Protected)
        } else if c == 2 {
            Some(AccessLevel::ReadOnly)
        } else if c == 3 {
            Some(AccessLevel::Hidden)
        } else {
            None
        }
    }

    pub fn from_code(c: i64) -> (r: Option<AccessLevel>)
        ensures
            r == AccessLevel::spec_from_code(c),
    {
        if c == 0 {
            Some(AccessLevel::Normal)
        } else if c == 1 {
            Some(AccessLevel::Protected)
        } else if c == 2 {
            Some(AccessLevel::ReadOnly)
        } else if c == 3 {
            Some(AccessLevel::Hidden)
        } else {
            None
        }
    }
}

/// Model of one column definition.
pub struct ColV {
    pub name: Seq<u8>,
    pub typing: ColType,
    pub default_gen: Option<Val>,
}

/// One column of a stored relation: a name, a semantic type, and an optional
/// constant default value.
pub struct ColumnDef {
    pub name: Vec<u8>,
    pub typing: ColType,
    pub default_gen: Option<DataValue>,
}

impl View for ColumnDef {
    type V = ColV;

    open spec fn view(&self) -> ColV {
        ColV {
            name: self.name@,
            typing: self.typing,
            default_gen: match self.default_gen {
                None => None,
                Some(v) => Some(v@),
            },
        }
    }
}

impl ColumnDef {
    pub fn duplicate(&self) -> (r: ColumnDef)
        ensures
            r@ == self@,
    {
        ColumnDef {
            name: crate::value::clone_bytes(&self.name),
            typing: self.typing,
            default_gen: match &self.default_gen {
                None => None,
                Some(v) => Some(v.duplicate()),
            },
        }
    }
}

/// Model of a relation handle.
pub struct HandleV {
    pub name: Seq<u8>,
    pub id: u64,
    pub keys: Seq<ColV>,
    pub non_keys: Seq<ColV>,
    pub access_level: AccessLevel,
    pub put_triggers: Seq<Seq<u8>>,
    pub rm_triggers: Seq<Seq<u8>>,
    pub replace_triggers: Seq<Seq<u8>>,
}

/// The model of a sequence of column definitions.
pub open spec fn cols_view(cs: Seq<ColumnDef>) -> Seq<ColV> {
    cs.map_values(|c: ColumnDef| c@)
}

/// The model of a sequence of trigger scripts.
pub open spec fn scripts_view(ss: Seq<Vec<u8>>) -> Seq<Seq<u8>> {
    ss.map_values(|s: Vec<u8>| s@)
}

/// The persistent descriptor of one stored relation.
pub struct RelationHandle {
    pub name: Vec<u8>,
    pub id: RelationId,
    pub keys: Vec<ColumnDef>,
    pub non_keys: Vec<ColumnDef>,
    pub access_level: AccessLevel,
    pub put_triggers: Vec<Vec<u8>>,
    pub rm_triggers: Vec<Vec<u8>>,
    pub replace_triggers: Vec<Vec<u8>>,
}

impl View for RelationHandle {
    type V = HandleV;

    open spec fn view(&self) -> HandleV {
        HandleV {
            name: self.name@,
            id: self.id.0,
            keys: cols_view(self.keys@),
            non_keys: cols_view(self.non_keys@),
            access_level: self.access_level,
            put_triggers: scripts_view(self.put_triggers@),
            rm_triggers: scripts_view(self.rm_triggers@),
            replace_triggers: scripts_view(self.replace_triggers@),
        }
    }
}

/// The string carried by a value, where it is one.
pub open spec fn as_str(v: Val) -> Seq<u8> {
    match v {
        Val::Str(s) => s,
        _ => Seq::empty(),
    }
}

/// The integer carried by a value, where it is one.
pub open spec fn as_int(v: Val) -> i64 {
    match v {
        Val::Int(i) => i,
        _ => 0,
    }
}

/// The boolean carried by a value, where it is one.
pub open spec fn as_bool(v: Val) -> bool {
    match v {
        Val::Bool(b) => b,
        _ => false,
    }
}

/// One column serialized as four values: name, type code, whether a default
/// exists, and the default itself (null where there is none).
pub open spec fn enc_col(c: ColV) -> Seq<Val> {
    seq![
        Val::Str(c.name),
        Val::Int(c.typing.spec_code()),
        Val::Bool(c.default_gen is Some),
        match c.default_gen {
            Some(v) => v,
            None => Val::Null,
        },
    ]
}

pub open spec fn enc_cols(cs: Seq<ColV>) -> Seq<Val>
    decreases cs.len(),
{
    if cs.len() == 0 {
        Seq::empty()
    } else {
        enc_col(cs[0]) + enc_cols(cs.drop_first())
    }
}

pub proof fn lemma_enc_cols_len(cs: Seq<ColV>)
    ensures
        enc_cols(cs).len() == 4 * cs.len(),
    decreases cs.len(),
{
    if cs.len() > 0 {
        lemma_enc_cols_len(cs.drop_first());
    }
}

pub proof fn lemma_enc_cols_index(cs: Seq<ColV>, j: int, m: int)
    requires
        0 <= j < cs.len(),
        0 <= m < 4,
    ensures
        enc_cols(cs).len() == 4 * cs.len(),
        enc_cols(cs)[4 * j + m] == enc_col(cs[j])[m],
    decreases j,
{
    lemma_enc_cols_len(cs);
    if j == 0 {
        assert(enc_cols(cs)[m] == enc_col(cs[0])[m]);
    } else {
        lemma_enc_cols_index(cs.drop_first(), j - 1, m);
        assert(cs.drop_first()[j - 1] == cs[j]);
        assert(enc_cols(cs)[4 * j + m] == enc_cols(cs.drop_first())[4 * (j - 1) + m]);
    }
}

pub proof fn lemma_enc_cols_snoc(cs: Seq<ColV>, c: ColV)
    ensures
        enc_cols(cs.push(c)) == enc_cols(cs) + enc_col(c),
    decreases cs.len(),
{
    if cs.len() == 0 {
        reveal_with_fuel(enc_cols, 3);
        assert(cs.push(c)[0] == c);
        assert(cs.push(c).drop_first() =~= Seq::<ColV>::empty());
        assert(enc_cols(cs.push(c)) =~= enc_cols(cs) + enc_col(c));
    } else {
        assert(cs.push(c)[0] == cs[0]);
        assert(cs.push(c).drop_first() =~= cs.drop_first().push(c));
        lemma_enc_cols_snoc(cs.drop_first(), c);
        assert(enc_cols(cs.push(c)) =~= enc_cols(cs) + enc_col(c));
    }
}

/// Trigger scripts serialized one string value each.
pub open spec fn enc_strs(ss: Seq<Seq<u8>>) -> Seq<Val>
    decreases ss.len(),
{
    if ss.len() == 0 {
        Seq::empty()
    } else {
        seq![Val::Str(ss[0])] + enc_strs(ss.drop_first())
    }
}

pub proof fn lemma_enc_strs_index(ss: Seq<Seq<u8>>)
    ensures
        enc_strs(ss).len() == ss.len(),
        forall|j: int| 0 <= j < ss.len() ==> enc_strs(ss)[j] == Val::Str(ss[j]),
    decreases ss.len(),
{
    if ss.len() > 0 {
        lemma_enc_strs_index(ss.drop_first());
        assert forall|j: int| 0 <= j < ss.len() implies enc_strs(ss)[j] == Val::Str(ss[j]) by {
            if j > 0 {
                assert(enc_strs(ss)[j] == enc_strs(ss.drop_first())[j - 1]);
                assert(ss.drop_first()[j - 1] == ss[j]);
            }
        }
    }
}

pub proof fn lemma_enc_strs_snoc(ss: Seq<Seq<u8>>, s: Seq<u8>)
    ensures
        enc_strs(ss.push(s)) == enc_strs(ss) + seq![Val::Str(s)],
    decreases ss.len(),
{
    if ss.len() == 0 {
        reveal_with_fuel(enc_strs, 3);
        assert(ss.push(s)[0] == s);
        assert(ss.push(s).drop_first() =~= Seq::<Seq<u8>>::empty());
        assert(enc_strs(ss.push(s)) =~= enc_strs(ss) + seq![Val::Str(s)]);
    } else {
        assert(ss.push(s)[0] == ss[0]);
        assert(ss.push(s).drop_first() =~= ss.drop_first().push(s));
        lemma_enc_strs_snoc(ss.drop_first(), s);
        assert(enc_strs(ss.push(s)) =~= enc_strs(ss) + seq![Val::Str(s)]);
    }
}

/// A handle serialized as a row of values: an 8-value header (name, id, the
/// five counts and the access level), then the columns and trigger scripts.
pub open spec fn handle_vals(h: HandleV) -> Seq<Val> {
    seq![
        Val::Str(h.name),
        Val::Int(h.id as i64),
        Val::Int(h.keys.len() as i64),
        Val::Int(h.non_keys.len() as i64),
        Val::Int(h.access_level.spec_code()),
        Val::Int(h.put_triggers.len() as i64),
        Val::Int(h.rm_triggers.len() as i64),
        Val::Int(h.replace_triggers.len() as i64),
    ] + enc_cols(h.keys) + enc_cols(h.non_keys) + enc_strs(h.put_triggers) + enc_strs(
        h.rm_triggers,
    ) + enc_strs(h.replace_triggers)
}

/// Shape of a serialized column at offset `b`.
pub open spec fn col_ok(vs: Seq<Val>, b: int) -> bool {
    &&& vs[b] is Str
    &&& vs[b + 1] is Int
    &&& ColType::spec_from_code(as_int(vs[b + 1])) is Some
    &&& vs[b + 2] is Bool
}

/// The column a well-shaped window at offset `b` stands for.
pub open spec fn col_at(vs: Seq<Val>, b: int) -> ColV {
    ColV {
        name: as_str(vs[b]),
        typing: match ColType::spec_from_code(as_int(vs[b + 1])) {
            Some(t) => t,
            None => ColType::Any,
        },
        default_gen: if as_bool(vs[b + 2]) {
            Some(vs[b + 3])
        } else {
            None
        },
    }
}

/// Bound on the column and trigger counts a serialized handle may carry.
pub const MAX_HANDLE_PART: u64 = 0x1000_0000;

/// Shape of the fixed 8-value header of a serialized handle.
pub open spec fn header_ok(vs: Seq<Val>) -> bool {
    &&& vs.len() >= 8
    &&& vs[0] is Str
    &&& vs[1] is Int
    &&& vs[2] is Int
    &&& vs[3] is Int
    &&& vs[4] is Int
    &&& vs[5] is Int
    &&& vs[6] is Int
    &&& vs[7] is Int
}

/// Whole-row shape of a serialized handle.
pub open spec fn layout_ok(vs: Seq<Val>) -> bool {
    &&& header_ok(vs)
    &&& 0 <= as_int(vs[2]) < MAX_HANDLE_PART
    &&& 0 <= as_int(vs[3]) < MAX_HANDLE_PART
    &&& 0 <= as_int(vs[5]) < MAX_HANDLE_PART
    &&& 0 <= as_int(vs[6]) < MAX_HANDLE_PART
    &&& 0 <= as_int(vs[7]) < MAX_HANDLE_PART
    &&& AccessLevel::spec_from_code(as_int(vs[4])) is Some
    &&& vs.len() == 8 + 4 * as_int(vs[2]) + 4 * as_int(vs[3]) + as_int(vs[5]) + as_int(vs[6])
        + as_int(vs[7])
    &&& forall|i: int| 0 <= i < as_int(vs[2]) ==> #[trigger] col_ok(vs, 8 + 4 * i)
    &&& forall|i: int|
        0 <= i < as_int(vs[3]) ==> #[trigger] col_ok(vs, 8 + 4 * as_int(vs[2]) + 4 * i)
    &&& forall|i: int|
        8 + 4 * as_int(vs[2]) + 4 * as_int(vs[3]) <= i < vs.len() ==> #[trigger] vs[i] is Str
}

/// The handle a well-shaped row stands for.
pub open spec fn build_handle(vs: Seq<Val>) -> HandleV {
    let nk = as_int(vs[2]);
    let nn = as_int(vs[3]);
    let np = as_int(vs[5]);
    let nr = as_int(vs[6]);
    let nrep = as_int(vs[7]);
    let bn = 8 + 4 * nk;
    let bp = bn + 4 * nn;
    let br = bp + np;
    let brep = br + nr;
    HandleV {
        name: as_str(vs[0]),
        id: as_int(vs[1]) as u64,
        keys: Seq::new(nk as nat, |i: int| col_at(vs, 8 + 4 * i)),
        non_keys: Seq::new(nn as nat, |i: int| col_at(vs, bn + 4 * i)),
        access_level: match AccessLevel::spec_from_code(as_int(vs[4])) {
            Some(a) => a,
            None => AccessLevel::Normal,
        },
        put_triggers: Seq::new(np as nat, |i: int| as_str(vs[bp + i])),
        rm_triggers: Seq::new(nr as nat, |i: int| as_str(vs[br + i])),
        replace_triggers: Seq::new(nrep as nat, |i: int| as_str(vs[brep + i])),
    }
}

/// Reads a handle back from a row of values.
pub open spec fn parse_handle(vs: Seq<Val>) -> Option<HandleV> {
    if layout_ok(vs) {
        Some(build_handle(vs))
    } else {
        None
    }
}

pub proof fn lemma_coltype_code_roundtrip(t: ColType)
    ensures
        ColType::spec_from_code(t.spec_code()) == Some(t),
{
}

pub proof fn lemma_access_code_roundtrip(a: AccessLevel)
    ensures
        AccessLevel::spec_from_code(a.spec_code()) == Some(a),
{
}

/// Bounds under which a handle survives serialization unchanged.
pub open spec fn wf_handle(h: HandleV) -> bool {
    &&& h.keys.len() < MAX_HANDLE_PART
    &&& h.non_keys.len() < MAX_HANDLE_PART
    &&& h.put_triggers.len() < MAX_HANDLE_PART
    &&& h.rm_triggers.len() < MAX_HANDLE_PART
    &&& h.replace_triggers.len() < MAX_HANDLE_PART
    &&& h.name.len() < crate::codec::pow256(8)
    &&& forall|i: int|
        0 <= i < h.keys.len() ==> (#[trigger] h.keys[i]).name.len() < crate::codec::pow256(8)
            && (h.keys[i].default_gen matches Some(v) ==> crate::codec::wf_val(v))
    &&& forall|i: int|
        0 <= i < h.non_keys.len() ==> (#[trigger] h.non_keys[i]).name.len() < crate::codec::pow256(
            8,
        ) && (h.non_keys[i].default_gen matches Some(v) ==> crate::codec::wf_val(v))
    &&& forall|i: int|
        0 <= i < h.put_triggers.len() ==> (#[trigger] h.put_triggers[i]).len()
            < crate::codec::pow256(8)
    &&& forall|i: int|
        0 <= i < h.rm_triggers.len() ==> (#[trigger] h.rm_triggers[i]).len()
            < crate::codec::pow256(8)
    &&& forall|i: int|
        0 <= i < h.replace_triggers.len() ==> (#[trigger] h.replace_triggers[i]).len()
            < crate::codec::pow256(8)
}

/// A serialized handle parses back to itself.
pub proof fn lemma_parse_handle_vals(h: HandleV)
    requires
        wf_handle(h),
    ensures
        parse_handle(handle_vals(h)) == Some(h),
{
    let vs = handle_vals(h);
    let nk = h.keys.len() as int;
    let nn = h.non_keys.len() as int;
    let np = h.put_triggers.len() as int;
    let nr = h.rm_triggers.len() as int;
    let nrep = h.replace_triggers.len() as int;
    lemma_enc_cols_len(h.keys);
    lemma_enc_cols_len(h.non_keys);
    lemma_enc_strs_index(h.put_triggers);
    lemma_enc_strs_index(h.rm_triggers);
    lemma_enc_strs_index(h.replace_triggers);
    assert(vs.len() == 8 + 4 * nk + 4 * nn + np + nr + nrep);
    let bk: int = 8;
    let bn = 8 + 4 * nk;
    let bp = 8 + 4 * nk + 4 * nn;
    let br = bp + np;
    let brep = br + nr;
    assert(forall|j: int| 0 <= j < np ==> vs[bp + j] == Val::Str(h.put_triggers[j]));
    assert(forall|j: int| 0 <= j < nr ==> vs[br + j] == Val::Str(h.rm_triggers[j]));
    assert(forall|j: int| 0 <= j < nrep ==> vs[brep + j] == Val::Str(h.replace_triggers[j]));
    lemma_access_code_roundtrip(h.access_level);
    assert(as_int(vs[2]) == nk && as_int(vs[3]) == nn && as_int(vs[5]) == np && as_int(vs[6]) == nr
        && as_int(vs[7]) == nrep);
    assert forall|i: int| 0 <= i < nk implies #[trigger] col_ok(vs, bk + 4 * i) && col_at(
        vs,
        bk + 4 * i,
    ) == h.keys[i] by {
        lemma_coltype_code_roundtrip(h.keys[i].typing);
        lemma_enc_cols_index(h.keys, i, 0);
        lemma_enc_cols_index(h.keys, i, 1);
        lemma_enc_cols_index(h.keys, i, 2);
        lemma_enc_cols_index(h.keys, i, 3);
        assert(vs[bk + 4 * i] == enc_col(h.keys[i])[0]);
        assert(vs[bk + 4 * i + 1] == enc_col(h.keys[i])[1]);
        assert(vs[bk + 4 * i + 2] == enc_col(h.keys[i])[2]);
        assert(vs[bk + 4 * i + 3] == enc_col(h.keys[i])[3]);
    }
    assert forall|i: int| 0 <= i < nn implies #[trigger] col_ok(vs, bn + 4 * i) && col_at(
        vs,
        bn + 4 * i,
    ) == h.non_keys[i] by {
        lemma_coltype_code_roundtrip(h.non_keys[i].typing);
        lemma_enc_cols_index(h.non_keys, i, 0);
        lemma_enc_cols_index(h.non_keys, i, 1);
        lemma_enc_cols_index(h.non_keys, i, 2);
        lemma_enc_cols_index(h.non_keys, i, 3);
        assert(vs[bn + 4 * i] == enc_col(h.non_keys[i])[0]);
        assert(vs[bn + 4 * i + 1] == enc_col(h.non_keys[i])[1]);
        assert(vs[bn + 4 * i + 2] == enc_col(h.non_keys[i])[2]);
        assert(vs[bn + 4 * i + 3] == enc_col(h.non_keys[i])[3]);
    }
    assert(layout_ok(vs));
    let parsed = build_handle(vs);
    let idv = h.id;
    assert((idv as i64) as u64 == idv) by (bit_vector);
    assert forall|i: int| 0 <= i < nk implies parsed.keys[i] == h.keys[i] by {
        assert(col_ok(vs, bk + 4 * i));
    }
    assert(parsed.keys =~= h.keys);
    assert forall|i: int| 0 <= i < nn implies parsed.non_keys[i] == h.non_keys[i] by {
        assert(col_ok(vs, bn + 4 * i));
    }
    assert(parsed.non_keys =~= h.non_keys);
    assert(parsed.put_triggers =~= h.put_triggers);
    assert(parsed.rm_triggers =~= h.rm_triggers);
    assert(parsed.replace_triggers =~= h.replace_triggers);
    assert(parse_handle(vs) == Some(h));
}

/// Every value in a serialized well-formed handle is itself well-formed.
pub proof fn lemma_handle_vals_wf(h: HandleV)
    requires
        wf_handle(h),
    ensures
        wf_row(handle_vals(h)),
{
    let vs = handle_vals(h);
    let nk = h.keys.len() as int;
    let nn = h.non_keys.len() as int;
    let np = h.put_triggers.len() as int;
    let nr = h.rm_triggers.len() as int;
    let nrep = h.replace_triggers.len() as int;
    lemma_enc_cols_len(h.keys);
    lemma_enc_cols_len(h.non_keys);
    lemma_enc_strs_index(h.put_triggers);
    lemma_enc_strs_index(h.rm_triggers);
    lemma_enc_strs_index(h.replace_triggers);
    let bk: int = 8;
    let bn = 8 + 4 * nk;
    let bp = 8 + 4 * nk + 4 * nn;
    let br = bp + np;
    let brep = br + nr;
    assert forall|i: int| 0 <= i < vs.len() implies crate::codec::wf_val(#[trigger] vs[i]) by {
        if i < 8 {
        } else if i < bn {
            let j = (i - bk) / 4;
            let m = (i - bk) % 4;
            assert(0 <= j < nk && 0 <= m < 4 && i == bk + 4 * j + m) by (nonlinear_arith)
                requires
                    bk <= i < bn,
                    bn == bk + 4 * nk,
                    j == (i - bk) / 4,
                    m == (i - bk) % 4,
                    nk >= 0,
            ;
            lemma_enc_cols_index(h.keys, j, m);
        } else if i < bp {
            let j = (i - bn) / 4;
            let m = (i - bn) % 4;
            assert(0 <= j < nn && 0 <= m < 4 && i == bn + 4 * j + m) by (nonlinear_arith)
                requires
                    bn <= i < bp,
                    bp == bn + 4 * nn,
                    j == (i - bn) / 4,
                    m == (i - bn) % 4,
                    nn >= 0,
            ;
            lemma_enc_cols_index(h.non_keys, j, m);
        } else if i < br {
        } else if i < brep {
        } else {
        }
    }
}

/// A handle parsed from well-formed values is itself well-formed.
pub proof fn lemma_parse_handle_wf(vs: Seq<Val>)
    requires
        wf_row(vs),
        parse_handle(vs) is Some,
    ensures
        wf_handle(parse_handle(vs).unwrap()),
{
    let h = build_handle(vs);
    let nk = as_int(vs[2]);
    let bn: int = 8 + 4 * nk;
    assert forall|i: int| 0 <= i < h.keys.len() implies (#[trigger] h.keys[i]).name.len()
        < crate::codec::pow256(8) && (h.keys[i].default_gen matches Some(v)
        ==> crate::codec::wf_val(v)) by {
        assert(h.keys[i] == col_at(vs, 8 + 4 * i));
        assert(wf_val(vs[8 + 4 * i]));
        assert(wf_val(vs[8 + 4 * i + 3]));
    }
    assert forall|i: int| 0 <= i < h.non_keys.len() implies (#[trigger] h.non_keys[i]).name.len()
        < crate::codec::pow256(8) && (h.non_keys[i].default_gen matches Some(v)
        ==> crate::codec::wf_val(v)) by {
        assert(h.non_keys[i] == col_at(vs, bn + 4 * i));
        assert(wf_val(vs[bn + 4 * i]));
        assert(wf_val(vs[bn + 4 * i + 3]));
    }
    let bp: int = 8 + 4 * as_int(vs[2]) + 4 * as_int(vs[3]);
    assert forall|i: int| 0 <= i < h.put_triggers.len() implies (
    #[trigger] h.put_triggers[i]).len() < crate::codec::pow256(8) by {
        assert(h.put_triggers[i] == as_str(vs[bp + i]));
        assert(wf_val(vs[bp + i]));
    }
    let br: int = bp + as_int(vs[5]);
    assert forall|i: int| 0 <= i < h.rm_triggers.len() implies (#[trigger] h.rm_triggers[i]).len()
        < crate::codec::pow256(8) by {
        assert(h.rm_triggers[i] == as_str(vs[br + i]));
        assert(wf_val(vs[br + i]));
    }
    let brep: int = br + as_int(vs[6]);
    assert forall|i: int|
        0 <= i < h.replace_triggers.len() implies (#[trigger] h.replace_triggers[i]).len()
        < crate::codec::pow256(8) by {
        assert(h.replace_triggers[i] == as_str(vs[brep + i]));
        assert(wf_val(vs[brep + i]));
    }
    assert(wf_val(vs[0]));
}

/// A well-formed handle, serialized and read back, is itself.
pub proof fn lemma_handle_bytes_roundtrip(h: HandleV)
    requires
        wf_handle(h),
    ensures
        dec_row(enc_row(handle_vals(h))) == Some(handle_vals(h)),
        parse_handle(handle_vals(h)) == Some(h),
{
    lemma_handle_vals_wf(h);
    crate::codec::lemma_dec_enc_row(handle_vals(h));
    lemma_parse_handle_vals(h);
}

/// Appends one value, extending the row's model by the value's model.
fn push_val(out: &mut Vec<DataValue>, v: DataValue)
    ensures
        row_view(final(out)@) == row_view(old(out)@).push(v@),
        final(out)@.len() == old(out)@.len() + 1,
{
    let ghost before = out@;
    let ghost vv = v@;
    out.push(v);
    proof {
        crate::value::lemma_row_view_push(before, out@.last());
        assert(out@ =~= before.push(out@.last()));
    }
}

/// Serializes a handle into the row of values that the catalog stores.
pub fn handle_to_tuple(h: &RelationHandle) -> (t: Tuple)
    ensures
        t@ == handle_vals(h@),
{
    let mut out: Vec<DataValue> = Vec::new();
    push_val(&mut out, DataValue::Str(crate::value::clone_bytes(&h.name)));
    push_val(&mut out, DataValue::Int(h.id.0 as i64));
    push_val(&mut out, DataValue::Int(h.keys.len() as i64));
    push_val(&mut out, DataValue::Int(h.non_keys.len() as i64));
    push_val(&mut out, DataValue::Int(h.access_level.code()));
    push_val(&mut out, DataValue::Int(h.put_triggers.len() as i64));
    push_val(&mut out, DataValue::Int(h.rm_triggers.len() as i64));
    push_val(&mut out, DataValue::Int(h.replace_triggers.len() as i64));
    let ghost header = row_view(out@);
    proof {
        assert(header =~= handle_vals(h@).take(8));
    }
    let ghost hkeys = cols_view(h.keys@);
    let mut i: usize = 0;
    while i < h.keys.len()
        invariant
            0 <= i <= h.keys@.len(),
            hkeys == cols_view(h.keys@),
            hkeys.len() == h.keys@.len(),
            row_view(out@) =~= header + enc_cols(hkeys.take(i as int)),
        decreases h.keys@.len() - i,
    {
        let c = &h.keys[i];
        proof {
            lemma_enc_cols_snoc(hkeys.take(i as int), hkeys[i as int]);
            assert(hkeys.take(i + 1 as int) =~= hkeys.take(i as int).push(hkeys[i as int]));
            assert(hkeys[i as int] == h.keys@[i as int]@);
        }
        push_val(&mut out, DataValue::Str(crate::value::clone_bytes(&c.name)));
        push_val(&mut out, DataValue::Int(c.typing.code()));
        match &c.default_gen {
            Some(d) => {
                push_val(&mut out, DataValue::Bool(true));
                push_val(&mut out, d.duplicate());
            },
            None => {
                push_val(&mut out, DataValue::Bool(false));
                push_val(&mut out, DataValue::Null);
            },
        }
        proof {
            assert(row_view(out@) =~= header + enc_cols(hkeys.take(i + 1 as int)));
        }
        i = i + 1;
    }
    proof {
        assert(hkeys.take(hkeys.len() as int) =~= hkeys);
    }
    let ghost hnon = cols_view(h.non_keys@);
    let ghost base1 = header + enc_cols(hkeys);
    let mut i2: usize = 0;
    while i2 < h.non_keys.len()
        invariant
            0 <= i2 <= h.non_keys@.len(),
            hnon == cols_view(h.non_keys@),
            hnon.len() == h.non_keys@.len(),
            row_view(out@) =~= base1 + enc_cols(hnon.take(i2 as int)),
        decreases h.non_keys@.len() - i2,
    {
        let c = &h.non_keys[i2];
        proof {
            lemma_enc_cols_snoc(hnon.take(i2 as int), hnon[i2 as int]);
            assert(hnon.take(i2 + 1 as int) =~= hnon.take(i2 as int).push(hnon[i2 as int]));
            assert(hnon[i2 as int] == h.non_keys@[i2 as int]@);
        }
        push_val(&mut out, DataValue::Str(crate::value::clone_bytes(&c.name)));
        push_val(&mut out, DataValue::Int(c.typing.code()));
        match &c.default_gen {
            Some(d) => {
                push_val(&mut out, DataValue::Bool(true));
                push_val(&mut out, d.duplicate());
            },
            None => {
                push_val(&mut out, DataValue::Bool(false));
                push_val(&mut out, DataValue::Null);
            },
        }
        proof {
            assert(row_view(out@) =~= base1 + enc_cols(hnon.take(i2 + 1 as int)));
        }
        i2 = i2 + 1;
    }
    proof {
        assert(hnon.take(hnon.len() as int) =~= hnon);
    }
    let ghost base2 = base1 + enc_cols(hnon);
    push_scripts(&mut out, &h.put_triggers);
    let ghost base3 = base2 + enc_strs(scripts_view(h.put_triggers@));
    push_scripts(&mut out, &h.rm_triggers);
    let ghost base4 = base3 + enc_strs(scripts_view(h.rm_triggers@));
    push_scripts(&mut out, &h.replace_triggers);
    let t = Tuple(out);
    proof {
        assert(t@ =~= handle_vals(h@));
    }
    t
}

/// Appends one string value per script.
fn push_scripts(out: &mut Vec<DataValue>, ss: &Vec<Vec<u8>>)
    ensures
        row_view(final(out)@) == row_view(old(out)@) + enc_strs(scripts_view(ss@)),
{
    let ghost sv = scripts_view(ss@);
    let ghost start = row_view(out@);
    let mut i: usize = 0;
    proof {
        assert(start + enc_strs(sv.take(0)) =~= start);
    }
    while i < ss.len()
        invariant
            0 <= i <= ss@.len(),
            sv == scripts_view(ss@),
            sv.len() == ss@.len(),
            row_view(out@) =~= start + enc_strs(sv.take(i as int)),
        decreases ss@.len() - i,
    {
        proof {
            lemma_enc_strs_snoc(sv.take(i as int), sv[i as int]);
            assert(sv.take(i + 1 as int) =~= sv.take(i as int).push(sv[i as int]));
            assert(sv[i as int] == ss@[i as int]@);
        }
        push_val(out, DataValue::Str(crate::value::clone_bytes(&ss[i])));
        proof {
            assert(row_view(out@) =~= start + enc_strs(sv.take(i + 1 as int)));
        }
        i = i + 1;
    }
    proof {
        assert(sv.take(sv.len() as int) =~= sv);
        assert(row_view(out@) =~= start + enc_strs(sv));
    }
}

/// The integer a value carries, where it is one.
fn get_int(v: &DataValue) -> (r: Option<i64>)
    ensures
        match r {
            Some(i) => v@ is Int && as_int(v@) == i,
            None => !(v@ is Int),
        },
{
    match v {
        DataValue::Int(i) => Some(*i),
        _ => None,
    }
}

/// Reads `count` serialized columns starting at `base`.
fn parse_cols(t: &Tuple, base: usize, count: usize) -> (r: Option<Vec<ColumnDef>>)
    requires
        base + 4 * (count as int) <= t@.len(),
    ensures
        match r {
            Some(cols) => cols@.len() == count && (forall|j: int|
                0 <= j < count ==> #[trigger] col_ok(t@, base + 4 * j)) && (forall|j: int|
                0 <= j < count ==> #[trigger] cols_view(cols@)[j] == col_at(t@, base + 4 * j)),
            None => exists|j: int| 0 <= j < count && !(#[trigger] col_ok(t@, base + 4 * j)),
        },
{
    let ghost vs = t@;
    let tlen = t.0.len();
    proof {
        assert(vs.len() == tlen);
    }
    let mut cols: Vec<ColumnDef> = Vec::new();
    let mut i: usize = 0;
    while i < count
        invariant
            0 <= i <= count,
            vs == t@,
            vs.len() == tlen,
            base + 4 * (count as int) <= vs.len(),
            cols@.len() == i,
            forall|j: int| 0 <= j < i ==> #[trigger] col_ok(vs, base + 4 * j),
            forall|j: int|
                0 <= j < i ==> #[trigger] cols_view(cols@)[j] == col_at(vs, base + 4 * j),
        decreases count - i,
    {
        let b = base + 4 * i;
        let ghost bi = base + 4 * (i as int);
        let cname = match &t.0[b] {
            DataValue::Str(s) => crate::value::clone_bytes(s),
            _ => {
                proof {
                    assert(!col_ok(vs, bi));
                }
                return None;
            },
        };
        let code = match get_int(&t.0[b + 1]) {
            Some(c) => c,
            None => {
                proof {
                    assert(!col_ok(vs, bi));
                }
                return None;
            },
        };
        let typing = match ColType::from_code(code) {
            Some(ty) => ty,
            None => {
                proof {
                    assert(!col_ok(vs, bi));
                }
                return None;
            },
        };
        let has = match &t.0[b + 2] {
            DataValue::Bool(x) => *x,
            _ => {
                proof {
                    assert(!col_ok(vs, bi));
                }
                return None;
            },
        };
        let default_gen = if has {
            Some(t.0[b + 3].duplicate())
        } else {
            None
        };
        let col = ColumnDef { name: cname, typing, default_gen };
        proof {
            assert(col_ok(vs, bi));
            assert(col@ == col_at(vs, bi));
        }
        let ghost prev = cols@;
        cols.push(col);
        proof {
            assert forall|j: int| 0 <= j < i + 1 implies #[trigger] col_ok(vs, base + 4 * j) by {
                if j == i {
                    assert(col_ok(vs, bi));
                }
            }
            assert forall|j: int|
                0 <= j < i + 1 implies #[trigger] cols_view(cols@)[j] == col_at(
                vs,
                base + 4 * j,
            ) by {
                assert(cols_view(cols@)[j] == cols@[j]@);
                if j < i {
                    assert(cols@[j] == prev[j]);
                    assert(cols_view(prev)[j] == prev[j]@);
                } else {
                    assert(cols@[j] == col);
                }
            }
        }
        i = i + 1;
    }
    Some(cols)
}

/// Reads `count` string values starting at `base`.
fn parse_scripts(t: &Tuple, base: usize, count: usize) -> (r: Option<Vec<Vec<u8>>>)
    requires
        base + (count as int) <= t@.len(),
    ensures
        match r {
            Some(ss) => ss@.len() == count && forall|j: int|
                0 <= j < count ==> #[trigger] t@[base + j] is Str && scripts_view(ss@)[j] == as_str(
                    t@[base + j],
                ),
            None => exists|j: int| 0 <= j < count && !(#[trigger] t@[base + j] is Str),
        },
{
    let ghost vs = t@;
    let tlen = t.0.len();
    proof {
        assert(vs.len() == tlen);
    }
    let mut out: Vec<Vec<u8>> = Vec::new();
    let mut i: usize = 0;
    while i < count
        invariant
            0 <= i <= count,
            vs == t@,
            vs.len() == tlen,
            base + (count as int) <= vs.len(),
            out@.len() == i,
            forall|j: int|
                0 <= j < i ==> #[trigger] vs[base + j] is Str && scripts_view(out@)[j] == as_str(
                    vs[base + j],
                ),
        decreases count - i,
    {
        match &t.0[base + i] {
            DataValue::Str(s) => {
                let ghost prev = out@;
                out.push(crate::value::clone_bytes(s));
                proof {
                    assert forall|j: int| 0 <= j < i + 1 implies #[trigger] vs[base + j] is Str
                        && scripts_view(out@)[j] == as_str(vs[base + j]) by {
                        if j < i {
                            assert(scripts_view(prev)[j] == prev[j]@);
                            assert(scripts_view(out@)[j] == out@[j]@);
                            assert(out@[j] == prev[j]);
                        } else {
                            assert(scripts_view(out@)[j] == out@[j]@);
                        }
                    }
                }
            },
            _ => {
                proof {
                    assert(!(vs[base + (i as int)] is Str));
                }
                return None;
            },
        }
        i = i + 1;
    }
    Some(out)
}

/// Reads a handle back from the row of values the catalog stores.
pub fn parse_handle_exec(t: &Tuple) -> (r: Option<RelationHandle>)
    ensures
        match r {
            None => parse_handle(t@) is None,
            Some(h) => parse_handle(t@) == Some(h@),
        },
{
    let ghost vs = t@;
    let n = t.0.len();
    proof {
        assert(vs.len() == n);
    }
    if n < 8 {
        return None;
    }
    let name = match &t.0[0] {
        DataValue::Str(s) => crate::value::clone_bytes(s),
        _ => {
            return None;
        },
    };
    let id_i = match get_int(&t.0[1]) {
        Some(i) => i,
        None => {
            return None;
        },
    };
    let nk_i = match get_int(&t.0[2]) {
        Some(i) => i,
        None => {
            return None;
        },
    };
    let nn_i = match get_int(&t.0[3]) {
        Some(i) => i,
        None => {
            return None;
        },
    };
    let acc_i = match get_int(&t.0[4]) {
        Some(i) => i,
        None => {
            return None;
        },
    };
    let np_i = match get_int(&t.0[5]) {
        Some(i) => i,
        None => {
            return None;
        },
    };
    let nr_i = match get_int(&t.0[6]) {
        Some(i) => i,
        None => {
            return None;
        },
    };
    let nrep_i = match get_int(&t.0[7]) {
        Some(i) => i,
        None => {
            return None;
        },
    };
    if !(0 <= nk_i && nk_i < 0x1000_0000 && 0 <= nn_i && nn_i < 0x1000_0000 && 0 <= np_i && np_i
        < 0x1000_0000 && 0 <= nr_i && nr_i < 0x1000_0000 && 0 <= nrep_i && nrep_i < 0x1000_0000) {
        return None;
    }
    let access_level = match AccessLevel::from_code(acc_i) {
        Some(a) => a,
        None => {
            return None;
        },
    };
    let expected: u64 = 8 + 4 * (nk_i as u64) + 4 * (nn_i as u64) + (np_i as u64) + (nr_i as u64)
        + (nrep_i as u64);
    if (n as u64) != expected {
        return None;
    }
    let nk = nk_i as usize;
    let nn = nn_i as usize;
    let np = np_i as usize;
    let nr = nr_i as usize;
    let nrep = nrep_i as usize;
    proof {
        assert(vs.len() == 8 + 4 * (nk as int) + 4 * (nn as int) + (np as int) + (nr as int)
            + (nrep as int));
    }
    let keys = match parse_cols(t, 8, nk) {
        Some(cs) => cs,
        None => {
            return None;
        },
    };
    let bn = 8 + 4 * nk;
    let non_keys = match parse_cols(t, bn, nn) {
        Some(cs) => cs,
        None => {
            return None;
        },
    };
    let bp = bn + 4 * nn;
    let put_triggers = match parse_scripts(t, bp, np) {
        Some(ss) => ss,
        None => {
            return None;
        },
    };
    let br = bp + np;
    let rm_triggers = match parse_scripts(t, br, nr) {
        Some(ss) => ss,
        None => {
            return None;
        },
    };
    let brep = br + nr;
    let replace_triggers = match parse_scripts(t, brep, nrep) {
        Some(ss) => ss,
        None => {
            return None;
        },
    };
    let h = RelationHandle {
        name,
        id: RelationId(id_i as u64),
        keys,
        non_keys,
        access_level,
        put_triggers,
        rm_triggers,
        replace_triggers,
    };
    proof {
        assert(layout_ok(vs)) by {
            assert forall|k: int|
                8 + 4 * as_int(vs[2]) + 4 * as_int(vs[3]) <= k < vs.len() implies #[trigger] vs[k]
                is Str by {
                if k < bp + np {
                    assert(vs[bp + (k - bp)] is Str);
                } else if k < br + nr {
                    assert(vs[br + (k - br)] is Str);
                } else {
                    assert(vs[brep + (k - brep)] is Str);
                }
            }
        }
        let built = build_handle(vs);
        assert forall|j: int| 0 <= j < nk implies built.keys[j] == cols_view(h.keys@)[j] by {
            assert(col_ok(vs, 8 + 4 * j));
        }
        assert(built.keys =~= cols_view(h.keys@));
        assert forall|j: int| 0 <= j < nn implies built.non_keys[j] == cols_view(h.non_keys@)[j] by {
            assert(col_ok(vs, bn + 4 * j));
            assert(8 + 4 * as_int(vs[2]) + 4 * j == bn + 4 * j);
        }
        assert(built.non_keys =~= cols_view(h.non_keys@));
        assert forall|j: int|
            0 <= j < np implies built.put_triggers[j] == scripts_view(h.put_triggers@)[j] by {
            assert(vs[bp + j] is Str);
        }
        assert(built.put_triggers =~= scripts_view(h.put_triggers@));
        assert forall|j: int|
            0 <= j < nr implies built.rm_triggers[j] == scripts_view(h.rm_triggers@)[j] by {
            assert(vs[br + j] is Str);
        }
        assert(built.rm_triggers =~= scripts_view(h.rm_triggers@));
        assert forall|j: int|
            0 <= j < nrep implies built.replace_triggers[j] == scripts_view(h.replace_triggers@)[j] by {
            assert(vs[brep + j] is Str);
        }
        assert(built.replace_triggers =~= scripts_view(h.replace_triggers@));
        assert(parse_handle(vs) == Some(h@));
    }
    Some(h)
}

/// The serialized bytes of a handle, as the catalog stores them.
pub fn encode_handle(h: &RelationHandle) -> (r: Vec<u8>)
    ensures
        r@ == enc_row(handle_vals(h@)),
{
    let t = handle_to_tuple(h);
    let mut out: Vec<u8> = Vec::new();
    crate::codec::encode_row(&mut out, &t);
    proof {
        assert(out@ =~= enc_row(handle_vals(h@)));
    }
    out
}

/// Reads a handle back from its serialized bytes.
pub fn decode_handle(bytes: &Vec<u8>) -> (r: Option<RelationHandle>)
    ensures
        match r {
            None => dec_row(bytes@) is None || parse_handle(dec_row(bytes@).unwrap()) is None,
            Some(h) => dec_row(bytes@) is Some && parse_handle(dec_row(bytes@).unwrap()) == Some(
                h@,
            ),
        },
{
    proof {
        assert(bytes@.skip(0) =~= bytes@);
    }
    match decode_row(bytes, 0) {
        None => None,
        Some(t) => parse_handle_exec(&t),
    }
}

/// The store key of a row: the relation id in big-endian bytes, then the
/// encoded key tuple.
pub open spec fn key_bytes(id: u64, row: Seq<Val>) -> Seq<u8> {
    be8(id) + enc_row(row)
}

/// The lower bound of a relation's key range: its id with the empty tuple.
pub open spec fn range_lower(id: u64) -> Seq<u8> {
    be8(id)
}

/// Encodes a key tuple under a relation id.
pub fn encode_key(id: RelationId, t: &Tuple) -> (r: Vec<u8>)
    ensures
        r@ == key_bytes(id.0, t@),
{
    let mut out = be8_exec(id.0);
    crate::codec::encode_row(&mut out, t);
    out
}

/// Every key of relation `id` lies in `[range_lower(id), range_lower(id+1))`.
pub proof fn lemma_key_in_own_range(id: u64, row: Seq<Val>)
    requires
        id < u64::MAX,
    ensures
        !lex_lt(key_bytes(id, row), range_lower(id)),
        lex_lt(key_bytes(id, row), range_lower((id + 1) as u64)),
{
    lemma_lex_prefix_le(be8(id), enc_row(row));
    lemma_be8_order(id, (id + 1) as u64);
    crate::codec::lemma_be_bytes_len(id as int, 8);
    crate::codec::lemma_be_bytes_len((id + 1) as int, 8);
    lemma_lex_extend(be8(id), be8((id + 1) as u64), enc_row(row), Seq::empty());
    assert(be8((id + 1) as u64) + Seq::<u8>::empty() =~= be8((id + 1) as u64));
}

/// Conversely, every key of at least eight bytes that lies inside
/// `[range_lower(id), range_lower(id+1))` starts with the big-endian
/// encoding of `id`: a relation's range holds no other relation's keys.
pub proof fn lemma_range_key_has_prefix(id: u64, k: Seq<u8>)
    requires
        id < u64::MAX,
        k.len() >= 8,
        !lex_lt(k, range_lower(id)),
        lex_lt(k, range_lower((id + 1) as u64)),
    ensures
        k.take(8) == be8(id),
{
    crate::codec::lemma_be_bytes_len(id as int, 8);
    crate::codec::lemma_be_bytes_len((id + 1) as int, 8);
    let p = k.take(8);
    assert(p.len() == 8);
    if p != be8(id) {
        crate::codec::lemma_from_be_bound(p);
        crate::codec::lemma_pow256_8();
        let j = crate::codec::from_be(p);
        crate::codec::lemma_be_from_be(p);
        assert(crate::codec::be_bytes(j, 8) == p);
        crate::lex::lemma_lex_trichotomy(p, be8(id));
        assert(k =~= p + k.skip(8));
        if lex_lt(p, be8(id)) {
            lemma_lex_extend(p, be8(id), k.skip(8), Seq::empty());
            assert(be8(id) + Seq::<u8>::empty() =~= be8(id));
            assert(lex_lt(k, range_lower(id)));
        } else {
            assert(lex_lt(be8(id), p));
            assert(j != id as int) by {
                crate::codec::lemma_from_be_be(id as int, 8);
                vstd::arithmetic::div_mod::lemma_small_mod(
                    id as nat,
                    crate::codec::pow256(8) as nat,
                );
            }
            assert(j > id as int) by {
                if j < id as int {
                    crate::codec::lemma_be_order(j, id as int, 8);
                    crate::lex::lemma_lex_trichotomy(p, be8(id));
                }
            }
            assert(j >= id as int + 1);
            if j > id as int + 1 {
                crate::codec::lemma_be_order(id as int + 1, j, 8);
            }
            assert(!lex_lt(p, be8((id + 1) as u64))) by {
                crate::lex::lemma_lex_trichotomy(p, be8((id + 1) as u64));
                if lex_lt(p, be8((id + 1) as u64)) {
                    if j > id as int + 1 {
                        crate::lex::lemma_lex_transitive(
                            be8((id + 1) as u64),
                            crate::codec::be_bytes(j, 8),
                            be8((id + 1) as u64),
                        );
                    }
                }
            }
            lemma_lex_prefix_le(p, k.skip(8));
            crate::lex::lemma_lex_trichotomy(k, p);
            if lex_lt(k, range_lower((id + 1) as u64)) {
                if lex_lt(k, p) {
                } else if k == p {
                } else {
                    crate::lex::lemma_lex_transitive(p, k, range_lower((id + 1) as u64));
                }
            }
        }
    }
}

/// No key of another relation lies in the range of `id`.
pub proof fn lemma_key_outside_other_range(id: u64, other: u64, row: Seq<Val>)
    requires
        id < u64::MAX,
        other != id,
        other < u64::MAX,
    ensures
        !(!lex_lt(key_bytes(other, row), range_lower(id)) && lex_lt(
            key_bytes(other, row),
            range_lower((id + 1) as u64),
        )),
{
    crate::codec::lemma_be_bytes_len(id as int, 8);
    crate::codec::lemma_be_bytes_len(other as int, 8);
    crate::codec::lemma_be_bytes_len((id + 1) as int, 8);
    if other < id {
        lemma_be8_order(other, id);
        lemma_lex_extend(be8(other), be8(id), enc_row(row), Seq::empty());
        assert(be8(id) + Seq::<u8>::empty() =~= be8(id));
    } else {
        assert(other >= id + 1);
        if other == id + 1 {
            lemma_lex_prefix_le(be8(other), enc_row(row));
        } else {
            lemma_be8_order((id + 1) as u64, other);
            lemma_lex_prefix_le(be8(other), enc_row(row));
            lemma_lex_trichotomy(key_bytes(other, row), range_lower((id + 1) as u64));
            if lex_lt(key_bytes(other, row), range_lower((id + 1) as u64)) {
                crate::lex::lemma_lex_transitive(
                    key_bytes(other, row),
                    be8((id + 1) as u64),
                    be8(other),
                );
            }
        }
    }
}

/// Rewrites the 8-byte relation-id prefix of an encoded key or value in
/// place; used when rows move between databases during import from a backup.
pub fn amend_key_prefix(id: RelationId, data: &mut Vec<u8>)
    requires
        old(data)@.len() >= 8,
    ensures
        final(data)@ == be8(id.0) + old(data)@.skip(8),
{
    let prefix = be8_exec(id.0);
    proof {
        crate::codec::lemma_be_bytes_len(id.0 as int, 8);
    }
    let mut i: usize = 0;
    while i < 8
        invariant
            0 <= i <= 8,
            data@.len() == old(data)@.len() >= 8,
            prefix@ == be8(id.0),
            prefix@.len() == 8,
            forall|j: int| 0 <= j < i ==> data@[j] == prefix@[j],
            forall|j: int| i <= j < data@.len() ==> data@[j] == old(data)@[j],
        decreases 8 - i,
    {
        let b = prefix[i];
        data.set(i, b);
        i = i + 1;
    }
    proof {
        assert(data@ =~= be8(id.0) + old(data)@.skip(8));
    }
}

/// Decodes the stored pair of one row back into its tuple: the key columns
/// from behind the id prefix of the key bytes, then the non-key columns from
/// the value bytes.
pub fn decode_tuple_from_kv(k: &Vec<u8>, v: &Vec<u8>) -> (r: Option<Tuple>)
    ensures
        match r {
            None => k@.len() < 8 || dec_row(k@.skip(8)) is None || dec_row(v@) is None,
            Some(t) => k@.len() >= 8 && dec_row(k@.skip(8)) is Some && dec_row(v@) is Some && t@
                == dec_row(k@.skip(8)).unwrap() + dec_row(v@).unwrap(),
        },
{
    if k.len() < 8 {
        return None;
    }
    let key_part = decode_row(k, 8);
    match key_part {
        None => {
            proof {
                assert(8 <= k@.len());
                assert(dec_row(k@.skip(8int)) is None);
                assert(k@.skip(8int) =~= k@.skip(8));
            }
            None
        },
        Some(mut t) => {
            let val_part = decode_row(v, 0);
            proof {
                assert(v@.skip(0) =~= v@);
            }
            match val_part {
                None => None,
                Some(tv) => {
                    let ghost tks = t@;
                    let mut i: usize = 0;
                    while i < tv.0.len()
                        invariant
                            0 <= i <= tv.0@.len(),
                            k@.len() >= 8,
                            dec_row(k@.skip(8)) == Some(tks),
                            dec_row(v@) == Some(tv@),
                            t@ =~= tks + tv@.take(i as int),
                        decreases tv.0@.len() - i,
                    {
                        let ghost before = t.0@;
                        t.0.push(tv.0[i].duplicate());
                        proof {
                            crate::value::lemma_row_view_push(before, t.0@.last());
                            assert(t.0@ =~= before.push(t.0@.last()));
                            assert(tv@[i as int] == tv.0@[i as int]@);
                            assert(t@ =~= tks + tv@.take(i + 1 as int));
                        }
                        i = i + 1;
                    }
                    proof {
                        assert(tv@.take(tv@.len() as int) =~= tv@);
                    }
                    Some(t)
                },
            }
        },
    }
}

} // verus!
