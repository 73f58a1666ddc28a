//! The plan explainer: walks a compiled relational-algebra tree into a
//! tabular description, children before parents, the rule's output row last.

use vstd::prelude::*;

use vstd::pervasive::VecAdditionalExecFns;
use vstd::string::{StrSliceExecFns, StringSliceAdditionalSpecFns};

use crate::value::{DataValue, Tuple, Val};

verus! {

/// A compiled relational-algebra node. The compiler's join conditions,
/// filter lists, unification expressions and per-node output bindings are
/// carried as the opaque byte strings the compiler rendered them to, the
/// same way the join type is carried.
pub enum RelAlgebra {
    Fixed { unit: bool, bindings: Vec<u8> },
    InMem { rule: Vec<u8>, filters: Vec<u8>, bindings: Vec<u8> },
    Stored { name: Vec<u8>, filters: Vec<u8>, bindings: Vec<u8> },
    Join {
        left: Box<RelAlgebra>,
        right: Box<RelAlgebra>,
        join_type: Vec<u8>,
        joins_on: Vec<u8>,
        bindings: Vec<u8>,
    },
    NegJoin {
        left: Box<RelAlgebra>,
        right: Box<RelAlgebra>,
        join_type: Vec<u8>,
        joins_on: Vec<u8>,
        bindings: Vec<u8>,
    },
    Reorder { relation: Box<RelAlgebra>, bindings: Vec<u8> },
    Filter { parent: Box<RelAlgebra>, pred: Vec<u8>, bindings: Vec<u8> },
    Unification {
        parent: Box<RelAlgebra>,
        binding: Vec<u8>,
        expr: Vec<u8>,
        is_multi: bool,
        bindings: Vec<u8>,
    },
}

/// One compiled rule: whether it aggregates (and whether every aggregation
/// is a meet), and its relational-algebra tree.
pub enum AggrKind {
    Plain,
    MeetAggr,
    Aggr,
}

pub struct CompiledRule {
    pub aggr: AggrKind,
    pub relation: RelAlgebra,
}

/// The rules of one named rule set, or an externally provided fixed point.
pub enum CompiledRuleSet {
    Rules(Vec<CompiledRule>),
    Algo,
}

/// One stratum: named rule sets in order.
pub struct CompiledProgram {
    pub sets: Vec<(Vec<u8>, CompiledRuleSet)>,
}

/// The `op` cell of a node.
pub open spec fn node_op(ra: RelAlgebra) -> Seq<u8> {
    match ra {
        RelAlgebra::Fixed { .. } => "fixed".spec_bytes(),
        RelAlgebra::InMem { .. } => "load_mem".spec_bytes(),
        RelAlgebra::Stored { .. } => "load_stored".spec_bytes(),
        RelAlgebra::Join { join_type, .. } => join_type@,
        RelAlgebra::NegJoin { join_type, .. } => join_type@,
        RelAlgebra::Reorder { .. } => "reorder".spec_bytes(),
        RelAlgebra::Filter { .. } => "filter".spec_bytes(),
        RelAlgebra::Unification { is_multi, .. } => if is_multi {
            "multi-unify".spec_bytes()
        } else {
            "unify".spec_bytes()
        },
    }
}

/// The `ref` cell of a node: the in-memory rule, the stored relation
/// prefixed with a colon, or the unified binding; null elsewhere.
pub open spec fn node_ref(ra: RelAlgebra) -> Val {
    match ra {
        RelAlgebra::InMem { rule, .. } => Val::Str(rule@),
        RelAlgebra::Stored { name, .. } => Val::Str(seq![58u8] + name@),
        RelAlgebra::Unification { binding, .. } => Val::Str(binding@),
        _ => Val::Null,
    }
}

/// The `joins_on` cell: the join condition a join node carries; null
/// elsewhere.
pub open spec fn node_joins_on(ra: RelAlgebra) -> Val {
    match ra {
        RelAlgebra::Join { joins_on, .. } => Val::Str(joins_on@),
        RelAlgebra::NegJoin { joins_on, .. } => Val::Str(joins_on@),
        _ => Val::Null,
    }
}

/// The `filters/expr` cell: the filter list of a load or filter node, or
/// the expression of a unification; null elsewhere.
pub open spec fn node_filter(ra: RelAlgebra) -> Val {
    match ra {
        RelAlgebra::InMem { filters, .. } => Val::Str(filters@),
        RelAlgebra::Stored { filters, .. } => Val::Str(filters@),
        RelAlgebra::Filter { pred, .. } => Val::Str(pred@),
        RelAlgebra::Unification { expr, .. } => Val::Str(expr@),
        _ => Val::Null,
    }
}

/// The `out_relation` cell: the node's output bindings.
pub open spec fn node_bindings(ra: RelAlgebra) -> Seq<u8> {
    match ra {
        RelAlgebra::Fixed { bindings, .. } => bindings@,
        RelAlgebra::InMem { bindings, .. } => bindings@,
        RelAlgebra::Stored { bindings, .. } => bindings@,
        RelAlgebra::Join { bindings, .. } => bindings@,
        RelAlgebra::NegJoin { bindings, .. } => bindings@,
        RelAlgebra::Reorder { bindings, .. } => bindings@,
        RelAlgebra::Filter { bindings, .. } => bindings@,
        RelAlgebra::Unification { bindings, .. } => bindings@,
    }
}

/// Whether a node is the unit fixed relation, which the description elides.
pub open spec fn is_unit(ra: RelAlgebra) -> bool {
    ra matches RelAlgebra::Fixed { unit, .. } && unit
}

/// One description row before index numbering: stratum, rule index, rule
/// name, a null slot for the atom index, op, ref, the join condition, the
/// filters or expression, and the node's output bindings.
pub open spec fn node_row(stratum: int, rule_idx: int, rule: Seq<u8>, ra: RelAlgebra) -> Seq<
    Val,
> {
    seq![
        Val::Int(stratum as i64),
        Val::Int(rule_idx as i64),
        Val::Str(rule),
        Val::Null,
        Val::Str(node_op(ra)),
        node_ref(ra),
        node_joins_on(ra),
        node_filter(ra),
        Val::Str(node_bindings(ra)),
    ]
}

/// The description of a tree, children before parents: a join describes its
/// left side, then its right, then itself; a join whose left side is unit
/// elides itself and descends into the right; the unit relation is skipped.
pub open spec fn ra_rows(stratum: int, rule_idx: int, rule: Seq<u8>, ra: RelAlgebra) -> Seq<
    Seq<Val>,
>
    decreases ra,
{
    match ra {
        RelAlgebra::Fixed { unit, .. } => if unit {
            Seq::empty()
        } else {
            seq![node_row(stratum, rule_idx, rule, ra)]
        },
        RelAlgebra::InMem { .. } => seq![node_row(stratum, rule_idx, rule, ra)],
        RelAlgebra::Stored { .. } => seq![node_row(stratum, rule_idx, rule, ra)],
        RelAlgebra::Join { left, right, .. } => if is_unit(*left) {
            ra_rows(stratum, rule_idx, rule, *right)
        } else {
            ra_rows(stratum, rule_idx, rule, *left) + ra_rows(stratum, rule_idx, rule, *right)
                + seq![node_row(stratum, rule_idx, rule, ra)]
        },
        RelAlgebra::NegJoin { left, right, .. } => ra_rows(stratum, rule_idx, rule, *left)
            + ra_rows(stratum, rule_idx, rule, *right) + seq![
            node_row(stratum, rule_idx, rule, ra),
        ],
        RelAlgebra::Reorder { relation, .. } => ra_rows(stratum, rule_idx, rule, *relation) + seq![
            node_row(stratum, rule_idx, rule, ra),
        ],
        RelAlgebra::Filter { parent, .. } => ra_rows(stratum, rule_idx, rule, *parent) + seq![
            node_row(stratum, rule_idx, rule, ra),
        ],
        RelAlgebra::Unification { parent, .. } => ra_rows(stratum, rule_idx, rule, *parent)
            + seq![node_row(stratum, rule_idx, rule, ra)],
    }
}

/// Every description row has the nine columns of the table.
pub proof fn lemma_ra_rows_len(stratum: int, rule_idx: int, rule: Seq<u8>, ra: RelAlgebra)
    ensures
        forall|p: int|
            0 <= p < ra_rows(stratum, rule_idx, rule, ra).len() ==> (#[trigger] ra_rows(
                stratum,
                rule_idx,
                rule,
                ra,
            )[p]).len() == 9,
    decreases ra,
{
    let rows = ra_rows(stratum, rule_idx, rule, ra);
    match ra {
        RelAlgebra::Join { left, right, .. } => {
            lemma_ra_rows_len(stratum, rule_idx, rule, *left);
            lemma_ra_rows_len(stratum, rule_idx, rule, *right);
            let la = ra_rows(stratum, rule_idx, rule, *left);
            let rb = ra_rows(stratum, rule_idx, rule, *right);
            if !is_unit(*left) {
                assert forall|p: int| 0 <= p < rows.len() implies (#[trigger] rows[p]).len()
                    == 9 by {
                    if p < la.len() {
                        assert(rows[p] == la[p]);
                    } else if p < la.len() + rb.len() {
                        assert(rows[p] == rb[p - la.len()]);
                    } else {
                        assert(rows[p] == node_row(stratum, rule_idx, rule, ra));
                    }
                }
            }
        },
        RelAlgebra::NegJoin { left, right, .. } => {
            lemma_ra_rows_len(stratum, rule_idx, rule, *left);
            lemma_ra_rows_len(stratum, rule_idx, rule, *right);
            let la = ra_rows(stratum, rule_idx, rule, *left);
            let rb = ra_rows(stratum, rule_idx, rule, *right);
            assert forall|p: int| 0 <= p < rows.len() implies (#[trigger] rows[p]).len() == 9 by {
                if p < la.len() {
                    assert(rows[p] == la[p]);
                } else if p < la.len() + rb.len() {
                    assert(rows[p] == rb[p - la.len()]);
                } else {
                    assert(rows[p] == node_row(stratum, rule_idx, rule, ra));
                }
            }
        },
        RelAlgebra::Reorder { relation, .. } => {
            lemma_ra_rows_len(stratum, rule_idx, rule, *relation);
            let la = ra_rows(stratum, rule_idx, rule, *relation);
            assert forall|p: int| 0 <= p < rows.len() implies (#[trigger] rows[p]).len() == 9 by {
                if p < la.len() {
                    assert(rows[p] == la[p]);
                } else {
                    assert(rows[p] == node_row(stratum, rule_idx, rule, ra));
                }
            }
        },
        RelAlgebra::Filter { parent, .. } => {
            lemma_ra_rows_len(stratum, rule_idx, rule, *parent);
            let la = ra_rows(stratum, rule_idx, rule, *parent);
            assert forall|p: int| 0 <= p < rows.len() implies (#[trigger] rows[p]).len() == 9 by {
                if p < la.len() {
                    assert(rows[p] == la[p]);
                } else {
                    assert(rows[p] == node_row(stratum, rule_idx, rule, ra));
                }
            }
        },
        RelAlgebra::Unification { parent, .. } => {
            lemma_ra_rows_len(stratum, rule_idx, rule, *parent);
            let la = ra_rows(stratum, rule_idx, rule, *parent);
            assert forall|p: int| 0 <= p < rows.len() implies (#[trigger] rows[p]).len() == 9 by {
                if p < la.len() {
                    assert(rows[p] == la[p]);
                } else {
                    assert(rows[p] == node_row(stratum, rule_idx, rule, ra));
                }
            }
        },
        _ => {},
    }
}

/// The `op` of a rule's output row, by its aggregation kind.
pub open spec fn out_op(aggr: AggrKind) -> Seq<u8> {
    match aggr {
        AggrKind::Plain => "out".spec_bytes(),
        AggrKind::MeetAggr => "meet_aggr_out".spec_bytes(),
        AggrKind::Aggr => "aggr_out".spec_bytes(),
    }
}

/// The rule's output row, carrying its root relation's output bindings.
pub open spec fn out_row(stratum: int, rule_idx: int, rule: Seq<u8>, aggr: AggrKind, bindings: Seq<
    u8,
>) -> Seq<Val> {
    seq![
        Val::Int(stratum as i64),
        Val::Int(rule_idx as i64),
        Val::Str(rule),
        Val::Null,
        Val::Str(out_op(aggr)),
        Val::Null,
        Val::Null,
        Val::Null,
        Val::Str(bindings),
    ]
}

/// The rows of one rule: its tree's description, then its output row, with
/// the atom index counting down from the output row.
pub open spec fn rule_rows(stratum: int, rule_idx: int, rule: Seq<u8>, r: CompiledRule) -> Seq<
    Seq<Val>,
> {
    let body = ra_rows(stratum, rule_idx, rule, r.relation) + seq![
        out_row(stratum, rule_idx, rule, r.aggr, node_bindings(r.relation)),
    ];
    Seq::new(body.len(), |p: int| body[p].update(3, Val::Int((body.len() - 1 - p) as i64)))
}

fn str_bytes(s: &str) -> (r: Vec<u8>)
    ensures
        r@ == s.spec_bytes(),
{
    s.as_bytes_vec()
}

/// Emits the description rows of one tree, children before parents.
fn emit_ra(
    out: &mut Vec<Tuple>,
    stratum: usize,
    rule_idx: usize,
    rule: &Vec<u8>,
    ra: &RelAlgebra,
)
    ensures
        crate::query::tuples_view(final(out)@) == crate::query::tuples_view(old(out)@) + ra_rows(
            stratum as int,
            rule_idx as int,
            rule@,
            *ra,
        ),
    decreases *ra,
{
    match ra {
        RelAlgebra::Fixed { unit, .. } => {
            if !*unit {
                push_node_row(out, stratum, rule_idx, rule, ra);
            } else {
                proof {
                    assert(crate::query::tuples_view(out@) + Seq::<Seq<Val>>::empty()
                        =~= crate::query::tuples_view(out@));
                }
            }
        },
        RelAlgebra::InMem { .. } => {
            push_node_row(out, stratum, rule_idx, rule, ra);
        },
        RelAlgebra::Stored { .. } => {
            push_node_row(out, stratum, rule_idx, rule, ra);
        },
        RelAlgebra::Join { left, right, .. } => {
            let left_unit = matches!(&**left, RelAlgebra::Fixed { unit: true, .. });
            if left_unit {
                emit_ra(out, stratum, rule_idx, rule, right);
            } else {
                let ghost mid0 = out@;
                emit_ra(out, stratum, rule_idx, rule, left);
                emit_ra(out, stratum, rule_idx, rule, right);
                push_node_row(out, stratum, rule_idx, rule, ra);
                proof {
                    assert(crate::query::tuples_view(out@) =~= crate::query::tuples_view(mid0)
                        + ra_rows(stratum as int, rule_idx as int, rule@, *ra));
                }
            }
        },
        RelAlgebra::NegJoin { left, right, .. } => {
            let ghost mid0 = out@;
            emit_ra(out, stratum, rule_idx, rule, left);
            emit_ra(out, stratum, rule_idx, rule, right);
            push_node_row(out, stratum, rule_idx, rule, ra);
            proof {
                assert(crate::query::tuples_view(out@) =~= crate::query::tuples_view(mid0)
                    + ra_rows(stratum as int, rule_idx as int, rule@, *ra));
            }
        },
        RelAlgebra::Reorder { relation, .. } => {
            let ghost mid0 = out@;
            emit_ra(out, stratum, rule_idx, rule, relation);
            push_node_row(out, stratum, rule_idx, rule, ra);
            proof {
                assert(crate::query::tuples_view(out@) =~= crate::query::tuples_view(mid0)
                    + ra_rows(stratum as int, rule_idx as int, rule@, *ra));
            }
        },
        RelAlgebra::Filter { parent, .. } => {
            let ghost mid0 = out@;
            emit_ra(out, stratum, rule_idx, rule, parent);
            push_node_row(out, stratum, rule_idx, rule, ra);
            proof {
                assert(crate::query::tuples_view(out@) =~= crate::query::tuples_view(mid0)
                    + ra_rows(stratum as int, rule_idx as int, rule@, *ra));
            }
        },
        RelAlgebra::Unification { parent, .. } => {
            let ghost mid0 = out@;
            emit_ra(out, stratum, rule_idx, rule, parent);
            push_node_row(out, stratum, rule_idx, rule, ra);
            proof {
                assert(crate::query::tuples_view(out@) =~= crate::query::tuples_view(mid0)
                    + ra_rows(stratum as int, rule_idx as int, rule@, *ra));
            }
        },
    }
}

/// Builds the cell row of one node and appends it.
fn push_node_row(
    out: &mut Vec<Tuple>,
    stratum: usize,
    rule_idx: usize,
    rule: &Vec<u8>,
    ra: &RelAlgebra,
)
    requires
        !(*ra matches RelAlgebra::Fixed { unit, .. } && unit),
    ensures
        crate::query::tuples_view(final(out)@) == crate::query::tuples_view(old(out)@) + seq![
            node_row(stratum as int, rule_idx as int, rule@, *ra),
        ],
        final(out)@.len() == old(out)@.len() + 1,
{
    let op: Vec<u8> = match ra {
        RelAlgebra::Fixed { .. } => str_bytes("fixed"),
        RelAlgebra::InMem { .. } => str_bytes("load_mem"),
        RelAlgebra::Stored { .. } => str_bytes("load_stored"),
        RelAlgebra::Join { join_type, .. } => crate::value::clone_bytes(join_type),
        RelAlgebra::NegJoin { join_type, .. } => crate::value::clone_bytes(join_type),
        RelAlgebra::Reorder { .. } => str_bytes("reorder"),
        RelAlgebra::Filter { .. } => str_bytes("filter"),
        RelAlgebra::Unification { is_multi, .. } => if *is_multi {
            str_bytes("multi-unify")
        } else {
            str_bytes("unify")
        },
    };
    let ref_cell: DataValue = match ra {
        RelAlgebra::InMem { rule: r2, .. } => DataValue::Str(crate::value::clone_bytes(r2)),
        RelAlgebra::Stored { name, .. } => {
            let mut prefixed: Vec<u8> = Vec::new();
            prefixed.push(58u8);
            crate::codec::push_bytes(&mut prefixed, name.as_slice());
            proof {
                assert(prefixed@ =~= seq![58u8] + name@);
            }
            DataValue::Str(prefixed)
        },
        RelAlgebra::Unification { binding, .. } => DataValue::Str(crate::value::clone_bytes(
            binding,
        )),
        _ => DataValue::Null,
    };
    let joins_cell: DataValue = match ra {
        RelAlgebra::Join { joins_on, .. } => DataValue::Str(crate::value::clone_bytes(joins_on)),
        RelAlgebra::NegJoin { joins_on, .. } => DataValue::Str(crate::value::clone_bytes(
            joins_on,
        )),
        _ => DataValue::Null,
    };
    let filter_cell: DataValue = match ra {
        RelAlgebra::InMem { filters, .. } => DataValue::Str(crate::value::clone_bytes(filters)),
        RelAlgebra::Stored { filters, .. } => DataValue::Str(crate::value::clone_bytes(filters)),
        RelAlgebra::Filter { pred, .. } => DataValue::Str(crate::value::clone_bytes(pred)),
        RelAlgebra::Unification { expr, .. } => DataValue::Str(crate::value::clone_bytes(expr)),
        _ => DataValue::Null,
    };
    let bindings_cell: DataValue = match ra {
        RelAlgebra::Fixed { bindings, .. } => DataValue::Str(crate::value::clone_bytes(bindings)),
        RelAlgebra::InMem { bindings, .. } => DataValue::Str(crate::value::clone_bytes(bindings)),
        RelAlgebra::Stored { bindings, .. } => DataValue::Str(crate::value::clone_bytes(
            bindings,
        )),
        RelAlgebra::Join { bindings, .. } => DataValue::Str(crate::value::clone_bytes(bindings)),
        RelAlgebra::NegJoin { bindings, .. } => DataValue::Str(crate::value::clone_bytes(
            bindings,
        )),
        RelAlgebra::Reorder { bindings, .. } => DataValue::Str(crate::value::clone_bytes(
            bindings,
        )),
        RelAlgebra::Filter { bindings, .. } => DataValue::Str(crate::value::clone_bytes(
            bindings,
        )),
        RelAlgebra::Unification { bindings, .. } => DataValue::Str(crate::value::clone_bytes(
            bindings,
        )),
    };
    let t = Tuple(
        vec![
            DataValue::Int(stratum as i64),
            DataValue::Int(rule_idx as i64),
            DataValue::Str(crate::value::clone_bytes(rule)),
            DataValue::Null,
            DataValue::Str(op),
            ref_cell,
            joins_cell,
            filter_cell,
            bindings_cell,
        ],
    );
    proof {
        assert(t@ =~= node_row(stratum as int, rule_idx as int, rule@, *ra));
    }
    let ghost prev = out@;
    out.push(t);
    proof {
        crate::query::lemma_tuples_view_push(prev, out@.last());
        assert(out@ =~= prev.push(out@.last()));
        assert(crate::query::tuples_view(out@) =~= crate::query::tuples_view(prev) + seq![
            node_row(stratum as int, rule_idx as int, rule@, *ra),
        ]);
    }
}

/// A rule index that moves up by one and stays put at the top of its range.
pub open spec fn sat_inc(idx: int) -> int {
    if idx < usize::MAX {
        idx + 1
    } else {
        idx
    }
}

/// The rule index after numbering `n` rules from `idx`.
pub open spec fn rules_end_idx(idx: int, n: nat) -> int
    decreases n,
{
    if n == 0 {
        idx
    } else {
        rules_end_idx(sat_inc(idx), (n - 1) as nat)
    }
}

/// The one row of an algorithmic rule set.
pub open spec fn algo_row(stratum: int, name: Seq<u8>) -> Seq<Val> {
    seq![
        Val::Int(stratum as i64),
        Val::Int(0),
        Val::Str(name),
        Val::Int(0),
        Val::Str("algo".spec_bytes()),
        Val::Null,
        Val::Null,
        Val::Null,
        Val::Null,
    ]
}

/// The rows of a list of rules under one name, rule indices counting up.
pub open spec fn rules_rows(stratum: int, idx: int, name: Seq<u8>, v: Seq<CompiledRule>) -> Seq<
    Seq<Val>,
>
    decreases v.len(),
{
    if v.len() == 0 {
        Seq::empty()
    } else {
        rule_rows(stratum, idx, name, v[0]) + rules_rows(stratum, sat_inc(idx), name, v.drop_first())
    }
}

/// The rows of one stratum's rule sets, the rule index running across them.
pub open spec fn sets_rows(stratum: int, idx: int, sets: Seq<(Vec<u8>, CompiledRuleSet)>) -> Seq<
    Seq<Val>,
>
    decreases sets.len(),
{
    if sets.len() == 0 {
        Seq::empty()
    } else {
        match sets[0].1 {
            CompiledRuleSet::Rules(v) => rules_rows(stratum, idx, sets[0].0@, v@) + sets_rows(
                stratum,
                rules_end_idx(idx, v@.len()),
                sets.drop_first(),
            ),
            CompiledRuleSet::Algo => seq![algo_row(stratum, sets[0].0@)] + sets_rows(
                stratum,
                idx,
                sets.drop_first(),
            ),
        }
    }
}

/// The whole description: every stratum's rule sets in order.
pub open spec fn strata_rows(stratum: int, strata: Seq<CompiledProgram>) -> Seq<Seq<Val>>
    decreases strata.len(),
{
    if strata.len() == 0 {
        Seq::empty()
    } else {
        sets_rows(stratum, 0, strata[0].sets@) + strata_rows(stratum + 1, strata.drop_first())
    }
}

/// The rows of one rule, atom indices numbered down from the output row.
pub fn explain_rule(stratum: usize, rule_idx: usize, rule: &Vec<u8>, r: &CompiledRule) -> (out:
    Vec<Tuple>)
    ensures
        crate::query::tuples_view(out@) == rule_rows(stratum as int, rule_idx as int, rule@, *r),
{
    let mut body: Vec<Tuple> = Vec::new();
    emit_ra(&mut body, stratum, rule_idx, rule, &r.relation);
    let aggr_op: Vec<u8> = match r.aggr {
        AggrKind::Plain => str_bytes("out"),
        AggrKind::MeetAggr => str_bytes("meet_aggr_out"),
        AggrKind::Aggr => str_bytes("aggr_out"),
    };
    let root_bindings: &Vec<u8> = match &r.relation {
        RelAlgebra::Fixed { bindings, .. } => bindings,
        RelAlgebra::InMem { bindings, .. } => bindings,
        RelAlgebra::Stored { bindings, .. } => bindings,
        RelAlgebra::Join { bindings, .. } => bindings,
        RelAlgebra::NegJoin { bindings, .. } => bindings,
        RelAlgebra::Reorder { bindings, .. } => bindings,
        RelAlgebra::Filter { bindings, .. } => bindings,
        RelAlgebra::Unification { bindings, .. } => bindings,
    };
    let t = Tuple(
        vec![
            DataValue::Int(stratum as i64),
            DataValue::Int(rule_idx as i64),
            DataValue::Str(crate::value::clone_bytes(rule)),
            DataValue::Null,
            DataValue::Str(aggr_op),
            DataValue::Null,
            DataValue::Null,
            DataValue::Null,
            DataValue::Str(crate::value::clone_bytes(root_bindings)),
        ],
    );
    proof {
        assert(t@ =~= out_row(
            stratum as int,
            rule_idx as int,
            rule@,
            r.aggr,
            node_bindings(r.relation),
        ));
    }
    let ghost prevb = body@;
    body.push(t);
    proof {
        crate::query::lemma_tuples_view_push(prevb, body@.last());
        assert(body@ =~= prevb.push(body@.last()));
        assert(crate::query::tuples_view(body@) =~= ra_rows(
            stratum as int,
            rule_idx as int,
            rule@,
            r.relation,
        ) + seq![
            out_row(stratum as int, rule_idx as int, rule@, r.aggr, node_bindings(r.relation)),
        ]);
    }
    let ghost bodyv = crate::query::tuples_view(body@);
    proof {
        lemma_ra_rows_len(stratum as int, rule_idx as int, rule@, r.relation);
        assert forall|p: int| 0 <= p < bodyv.len() implies (#[trigger] bodyv[p]).len() == 9 by {
            let rows = ra_rows(stratum as int, rule_idx as int, rule@, r.relation);
            if p < rows.len() {
                assert(bodyv[p] == rows[p]);
            } else {
                assert(bodyv[p] == out_row(
                    stratum as int,
                    rule_idx as int,
                    rule@,
                    r.aggr,
                    node_bindings(r.relation),
                ));
            }
        }
    }
    let n = body.len();
    let mut out: Vec<Tuple> = Vec::new();
    let mut i: usize = 0;
    while i < n
        invariant
            0 <= i <= n == body@.len(),
            bodyv == crate::query::tuples_view(body@),
            bodyv.len() == n,
            forall|p: int| 0 <= p < bodyv.len() ==> (#[trigger] bodyv[p]).len() == 9,
            out@.len() == i,
            forall|p: int|
                0 <= p < i ==> #[trigger] out@[p]@ == bodyv[p].update(
                    3,
                    Val::Int((n - 1 - p) as i64),
                ),
        decreases n - i,
    {
        let mut t = body[i].duplicate();
        proof {
            assert(t@ == bodyv[i as int]);
            assert(t@.len() == t.0@.len());
        }
        proof {
            assert(t@.len() == 9);
            assert(t.0@.len() == 9);
        }
        let ghost tv = t@;
        let idx_val = DataValue::Int((n - 1 - i) as i64);
        t.0.set(3, idx_val);
        proof {
            assert forall|j: int| 0 <= j < t@.len() implies #[trigger] t@[j] == tv.update(
                3,
                Val::Int((n - 1 - i) as i64),
            )[j] by {
                assert(t@[j] == t.0@[j]@);
            }
            assert(t@ =~= tv.update(3, Val::Int((n - 1 - i) as i64)));
        }
        out.push(t);
        i = i + 1;
    }
    proof {
        assert forall|p: int|
            0 <= p < n implies #[trigger] crate::query::tuples_view(out@)[p] == rule_rows(
            stratum as int,
            rule_idx as int,
            rule@,
            *r,
        )[p] by {
            assert(crate::query::tuples_view(out@)[p] == out@[p]@);
        }
        assert(crate::query::tuples_view(out@) =~= rule_rows(
            stratum as int,
            rule_idx as int,
            rule@,
            *r,
        ));
    }
    out
}

} // verus!
