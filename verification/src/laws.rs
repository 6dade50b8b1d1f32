//! Laws relating the library's operations: reply cardinality and order,
//! instance-view filtering, lookup round trips, and scaling round trips.

use vstd::prelude::*;
use crate::quantity::{
    dim_at, dim_diff, dim_sum, lemma_dims_map_entries, m_div, m_mul, sgn, Quantity,
};
use crate::substance::{
    def_record_ok, def_reply_post, inst_drop, inst_record_ok, inst_reply_post, kept_props,
    lex_lt, prop_eqv, props_eqv, Property, PropertyReply, Substance, SubstanceReply,
};

verus! {

/// A successful definitional reply has exactly one record per property
/// (cardinality preserved) and its record names keep the table's strict
/// lexicographic order.
pub proof fn lemma_definitional_reply_complete(s: Substance, rep: SubstanceReply)
    requires
        s.wf(),
        s.is_definitional(),
        def_reply_post(s, Result::<SubstanceReply, String>::Ok(rep)),
    ensures
        rep.properties@.len() == s.properties@.len(),
        forall|i: int|
            0 <= i < rep.properties@.len() ==> (#[trigger] rep.properties@[i]).name@
                == s.properties@[i].0@,
        forall|i: int, j: int|
            0 <= i < j < rep.properties@.len() ==> lex_lt(
                (#[trigger] rep.properties@[i]).name@,
                (#[trigger] rep.properties@[j]).name@,
            ),
{
    assert forall|i: int| 0 <= i < rep.properties@.len() implies (#[trigger] rep.properties@[i]).name@
        == s.properties@[i].0@ by {
        assert(def_record_ok(rep.properties@[i], s.amount, s.properties@[i].0, s.properties@[i].1));
    }
}

/// The table positions of the properties an instance reply keeps.
pub open spec fn kept_indices(amount: Quantity, props: Seq<(String, Property)>) -> Seq<int>
    decreases props.len(),
{
    if props.len() == 0 {
        Seq::empty()
    } else {
        kept_indices(amount, props.drop_last()) + (if inst_drop(amount, props.last().1) {
            Seq::empty()
        } else {
            seq![props.len() - 1]
        })
    }
}

/// The kept properties are a subsequence of the table: their positions are
/// strictly increasing, and only properties with at least one side
/// cancelling against the amount are kept.
pub proof fn lemma_kept_props_indices(amount: Quantity, props: Seq<(String, Property)>)
    ensures
        kept_indices(amount, props).len() == kept_props(amount, props).len(),
        kept_props(amount, props).len() <= props.len(),
        forall|k: int|
            0 <= k < kept_indices(amount, props).len() ==> 0 <= #[trigger] kept_indices(
                amount,
                props,
            )[k] < props.len() && kept_props(amount, props)[k] == props[kept_indices(
                amount,
                props,
            )[k]].1 && !inst_drop(amount, props[kept_indices(amount, props)[k]].1),
        forall|k1: int, k2: int|
            0 <= k1 < k2 < kept_indices(amount, props).len() ==> #[trigger] kept_indices(
                amount,
                props,
            )[k1] < #[trigger] kept_indices(amount, props)[k2],
    decreases props.len(),
{
    if props.len() > 0 {
        lemma_kept_props_indices(amount, props.drop_last());
        let idx = kept_indices(amount, props);
        let idx0 = kept_indices(amount, props.drop_last());
        let kept = kept_props(amount, props);
        let kept0 = kept_props(amount, props.drop_last());
        assert forall|k: int| 0 <= k < idx.len() implies 0 <= #[trigger] idx[k] < props.len()
            && kept[k] == props[idx[k]].1 && !inst_drop(amount, props[idx[k]].1) by {
            if k < idx0.len() {
                assert(idx[k] == idx0[k]);
                assert(kept[k] == kept0[k]);
                assert(props.drop_last()[idx0[k]] == props[idx0[k]]);
            } else {
                assert(idx[k] == props.len() - 1);
                assert(kept[k] == props.last().1);
            }
        }
    }
}

/// In a successful instance reply every record beyond the leading amount
/// record has no input side; record `k` stems from the property at table
/// position `kept_indices(..)[k - 1]`, one of whose sides cancels against
/// the amount, and is named after exactly that side.  The positions increase
/// strictly, so no property yields more than one record.
pub proof fn lemma_instance_reply_shape(s: Substance, rep: SubstanceReply)
    requires
        s.wf(),
        !s.is_definitional(),
        inst_reply_post(s, Result::<SubstanceReply, String>::Ok(rep)),
    ensures
        rep.properties@.len() == 1 + kept_indices(s.amount, s.properties@).len(),
        rep.properties@.len() <= 1 + s.properties@.len(),
        forall|k: int| 0 <= k < rep.properties@.len() ==> (#[trigger] rep.properties@[k]).input is None,
        forall|k: int|
            1 <= k < rep.properties@.len() ==> {
                let i = kept_indices(s.amount, s.properties@)[k - 1];
                &&& 0 <= i < s.properties@.len()
                &&& !inst_drop(s.amount, s.properties@[i].1)
                &&& inst_record_ok(#[trigger] rep.properties@[k], s.amount, s.properties@[i].1)
            },
        forall|k1: int, k2: int|
            0 <= k1 < k2 < kept_indices(s.amount, s.properties@).len() ==> #[trigger] kept_indices(
                s.amount,
                s.properties@,
            )[k1] < #[trigger] kept_indices(s.amount, s.properties@)[k2],
{
    lemma_kept_props_indices(s.amount, s.properties@);
    let kept = kept_props(s.amount, s.properties@);
    assert forall|k: int| 0 <= k < rep.properties@.len() implies (
    #[trigger] rep.properties@[k]).input is None by {
        if k >= 1 {
            let kk = k - 1;
            assert(inst_record_ok(rep.properties@[kk + 1], s.amount, kept[kk]));
        }
    }
    assert forall|k: int| 1 <= k < rep.properties@.len() implies {
        let i = kept_indices(s.amount, s.properties@)[k - 1];
        &&& 0 <= i < s.properties@.len()
        &&& !inst_drop(s.amount, s.properties@[i].1)
        &&& inst_record_ok(#[trigger] rep.properties@[k], s.amount, s.properties@[i].1)
    } by {
        let kk = k - 1;
        assert(inst_record_ok(rep.properties@[kk + 1], s.amount, kept[kk]));
        assert(kept[kk] == s.properties@[kept_indices(s.amount, s.properties@)[kk]].1);
    }
}

/// Round trip of a definitional reply: for a property whose defining input
/// is the pure scalar one, the record's output recovers `amount * output`
/// exactly (as a rational value, and with the output's dimension).
pub proof fn lemma_definitional_round_trip(
    amount: Quantity,
    key: String,
    p: Property,
    rec: PropertyReply,
)
    requires
        amount.wf(),
        amount.is_dimensionless(),
        p.wf(),
        p.input.is_dimensionless(),
        p.input.num == p.input.den,
        def_record_ok(rec, amount, key, p),
    ensures
        rec.output.model().num * (amount.den * p.output.den) == (amount.num * p.output.num)
            * rec.output.model().den,
        rec.output.model().dims == p.output.model().dims,
{
    let a = amount.model();
    let o = p.output.model();
    let inp = p.input.model();
    let mm = m_mul(o, a);
    let r = m_div(mm, inp);
    assert(rec.output.model() == r);
    assert(sgn(inp.num) == 1);
    assert(r.num == (o.num * a.num) * inp.den);
    assert(r.den == (o.den * a.den) * inp.num);
    assert(((o.num * a.num) * inp.den) * (a.den * o.den) == (a.num * o.num) * (((o.den * a.den)
        * inp.num))) by (nonlinear_arith)
        requires
            inp.num == inp.den,
    ;
    lemma_dims_map_entries(p.output.dims@);
    assert(a.dims =~= Map::<u64, int>::empty());
    assert(inp.dims =~= Map::<u64, int>::empty());
    assert(r.dims =~= o.dims);
}

/// Scaling round trip: dividing a substance by a quantity of nonzero
/// magnitude and multiplying the result back reproduces the original amount
/// (same rational value, same dimension) and leaves the property table
/// unchanged.
pub proof fn lemma_scaling_round_trip(s: Substance, q: Quantity, s1: Substance, s2: Substance)
    requires
        s.wf(),
        q.wf(),
        q.num != 0,
        s1.amount.model() == m_div(s.amount.model(), q.model()),
        props_eqv(s1.properties@, s.properties@),
        s2.amount.model() == m_mul(s1.amount.model(), q.model()),
        props_eqv(s2.properties@, s1.properties@),
    ensures
        s2.amount.model().num * s.amount.model().den == s.amount.model().num
            * s2.amount.model().den,
        s2.amount.model().dims == s.amount.model().dims,
        props_eqv(s2.properties@, s.properties@),
{
    let a = s.amount.model();
    let qm = q.model();
    let b = s1.amount.model();
    let c = s2.amount.model();
    let g = sgn(qm.num);
    assert(b.num == g * (a.num * qm.den));
    assert(b.den == g * (a.den * qm.num));
    assert((((g * (a.num * qm.den)) * qm.num) * a.den) == (a.num * ((g * (a.den * qm.num))
        * qm.den))) by (nonlinear_arith);
    lemma_dims_map_entries(s.amount.dims@);
    assert forall|u: u64| true implies dim_at(dim_sum(dim_diff(a.dims, qm.dims), qm.dims), u)
        == dim_at(a.dims, u) by {
        assert(dim_at(dim_diff(a.dims, qm.dims), u) == dim_at(a.dims, u) - dim_at(qm.dims, u));
    }
    assert forall|u: u64| a.dims.dom().contains(u) implies a.dims[u] != 0 by {
        let i = choose|i: int|
            0 <= i < s.amount.dims@.len() && (#[trigger] s.amount.dims@[i]).0 == u;
        assert(a.dims[u] == s.amount.dims@[i].1 as int);
    }
    assert(c.dims =~= a.dims);
    assert forall|i: int| 0 <= i < s2.properties@.len() implies (#[trigger] s2.properties@[i]).0@
        == s.properties@[i].0@ && prop_eqv(s2.properties@[i].1, s.properties@[i].1) by {
        assert(prop_eqv(s1.properties@[i].1, s.properties@[i].1));
        assert(prop_eqv(s2.properties@[i].1, s1.properties@[i].1));
    }
}

} // verus!
