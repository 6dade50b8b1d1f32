//! Substances: an amount plus named conversion ratios (properties), with
//! bidirectional conformance-checked lookup, reply construction and scaling.

use vstd::prelude::*;
use vstd::string::StringExecFns;
use crate::quantity::{
    dims_bounded, dims_map, dims_wf, m_div, m_mul, mul_fits, q_eqv, lemma_dims_map_empty,
    Quantity, QModel, EXP_BOUND, MAG_BOUND,
};

verus! {

/// Strict lexicographic order on character sequences (by unicode scalar).
pub open spec fn lex_lt(a: Seq<char>, b: Seq<char>) -> bool
    decreases a.len(),
{
    if b.len() == 0 {
        false
    } else if a.len() == 0 {
        true
    } else if (a[0] as u32) < (b[0] as u32) {
        true
    } else if (b[0] as u32) < (a[0] as u32) {
        false
    } else {
        lex_lt(a.drop_first(), b.drop_first())
    }
}

pub proof fn lemma_lex_lt_irrefl(a: Seq<char>)
    ensures
        !lex_lt(a, a),
    decreases a.len(),
{
    if a.len() > 0 {
        lemma_lex_lt_irrefl(a.drop_first());
    }
}

/// A named conversion ratio between two quantities: the law that `input`
/// of the input-named side corresponds to `output` of the output-named side.
pub struct Property {
    pub input: Quantity,
    pub input_name: String,
    pub output: Quantity,
    pub output_name: String,
    pub doc: Option<String>,
}

impl Property {
    pub open spec fn wf(self) -> bool {
        &&& self.input.wf()
        &&& self.output.wf()
    }

    pub open spec fn bounded(self) -> bool {
        &&& self.input.bounded()
        &&& self.output.bounded()
    }

    /// A deep copy, value-equal field by field.
    pub fn duplicate(&self) -> (r: Property)
        ensures
            prop_eqv(r, *self),
    {
        Property {
            input: self.input.duplicate(),
            input_name: self.input_name.clone(),
            output: self.output.duplicate(),
            output_name: self.output_name.clone(),
            doc: match &self.doc {
                Some(d) => Some(d.clone()),
                None => None,
            },
        }
    }
}

/// Two optional strings hold the same text.
pub open spec fn opt_str_eqv(a: Option<String>, b: Option<String>) -> bool {
    match (a, b) {
        (Option::None, Option::None) => true,
        (Option::Some(x), Option::Some(y)) => x@ == y@,
        _ => false,
    }
}

/// Two properties carry the same ratio, names and documentation.
pub open spec fn prop_eqv(a: Property, b: Property) -> bool {
    &&& q_eqv(a.input, b.input)
    &&& q_eqv(a.output, b.output)
    &&& a.input_name@ == b.input_name@
    &&& a.output_name@ == b.output_name@
    &&& opt_str_eqv(a.doc, b.doc)
}

/// An amount of a material plus its property table, ordered by name.
pub struct Substance {
    pub amount: Quantity,
    pub properties: Vec<(String, Property)>,
}

/// A failed single-value lookup.
pub enum SubstanceGetError {
    /// Missing property name, or a division by zero during derivation.
    Generic(String),
    /// The two carried quantities were required to cancel dimensionally
    /// and do not; both are carried so a caller can explain the mismatch.
    Conformance(Quantity, Quantity),
}

pub open spec fn has_key(props: Seq<(String, Property)>, name: Seq<char>) -> bool {
    exists|i: int| 0 <= i < props.len() && (#[trigger] props[i]).0@ == name
}

/// The first property, in table order, one of whose sides is called `name`;
/// the flag is true when it is the output side (checked first).
pub open spec fn find_match(props: Seq<(String, Property)>, name: Seq<char>) -> Option<
    (int, bool),
>
    decreases props.len(),
{
    if props.len() == 0 {
        None
    } else if props[0].1.output_name@ == name {
        Some((0int, true))
    } else if props[0].1.input_name@ == name {
        Some((0int, false))
    } else {
        match find_match(props.drop_first(), name) {
            None => None,
            Some(p) => Some((p.0 + 1, p.1)),
        }
    }
}

/// Skipping a prefix without matches shifts the first match by that much.
proof fn lemma_find_match_skip(props: Seq<(String, Property)>, name: Seq<char>, i: int)
    requires
        0 <= i <= props.len(),
        forall|k: int|
            0 <= k < i ==> (#[trigger] props[k]).1.output_name@ != name
                && props[k].1.input_name@ != name,
    ensures
        find_match(props, name) == (match find_match(props.skip(i), name) {
            None => None::<(int, bool)>,
            Some(p) => Some((p.0 + i, p.1)),
        }),
    decreases i,
{
    if i > 0 {
        assert forall|k: int| 0 <= k < i - 1 implies (#[trigger] props.drop_first()[k]).1.output_name@
            != name && props.drop_first()[k].1.input_name@ != name by {
            assert(props.drop_first()[k] == props[k + 1]);
        }
        lemma_find_match_skip(props.drop_first(), name, i - 1);
        assert(props.drop_first().skip(i - 1) =~= props.skip(i));
    } else {
        assert(props.skip(0) =~= props);
    }
}

impl Substance {
    pub open spec fn wf(self) -> bool {
        &&& self.amount.wf()
        &&& forall|i: int|
            0 <= i < self.properties@.len() ==> (#[trigger] self.properties@[i]).1.wf()
        &&& forall|i: int, j: int|
            0 <= i < j < self.properties@.len() ==> lex_lt(
                (#[trigger] self.properties@[i]).0@,
                (#[trigger] self.properties@[j]).0@,
            )
    }

    pub open spec fn bounded(self) -> bool {
        &&& self.amount.bounded()
        &&& forall|i: int|
            0 <= i < self.properties@.len() ==> (#[trigger] self.properties@[i]).1.bounded()
    }

    /// Definitional mode: the amount is a pure dimensionless multiplier.
    pub open spec fn is_definitional(self) -> bool {
        self.amount.is_dimensionless()
    }

    /// In definitional mode each property's output magnitude is a defining
    /// constant and must be nonzero; this is a data-integrity invariant.
    pub open spec fn def_outputs_nonzero(self) -> bool {
        forall|i: int|
            0 <= i < self.properties@.len() ==> (#[trigger] self.properties@[i]).1.output.num != 0
    }
}

pub open spec fn no_such_property_msg(name: Seq<char>) -> Seq<char> {
    "No such property "@ + name
}

/// The converted value a definitional lookup yields for property `p`.
pub open spec fn def_value(amount: Quantity, p: Property) -> QModel {
    m_div(m_mul(amount.model(), p.input.model()), p.output.model())
}

/// What `get` returns in definitional mode.
pub open spec fn get_def_post(
    s: Substance,
    name: Seq<char>,
    r: Result<Quantity, SubstanceGetError>,
) -> bool {
    &&& has_key(s.properties@, name) ==> (r matches Ok(q) && q.wf() && forall|i: int|
        0 <= i < s.properties@.len() && (#[trigger] s.properties@[i]).0@ == name ==> q.model()
            == def_value(s.amount, s.properties@[i].1))
    &&& !has_key(s.properties@, name) ==> (r matches Err(SubstanceGetError::Generic(m)) && m@
        == no_such_property_msg(name))
}

/// What `get` returns in instance mode.
pub open spec fn get_inst_post(
    s: Substance,
    name: Seq<char>,
    r: Result<Quantity, SubstanceGetError>,
) -> bool {
    let fm = find_match(s.properties@, name);
    &&& fm is None ==> (r matches Err(SubstanceGetError::Generic(m)) && m@
        == no_such_property_msg(name))
    &&& fm matches Some((i, out_side)) ==> {
        let p = s.properties@[i].1;
        let first = if out_side {
            p.input
        } else {
            p.output
        };
        let second = if out_side {
            p.output
        } else {
            p.input
        };
        let step = m_div(first.model(), s.amount.model());
        &&& s.amount.num == 0 ==> (r matches Err(SubstanceGetError::Generic(m)) && m@
            == "Division by zero"@)
        &&& s.amount.num != 0 && step.dims != Map::<u64, int>::empty() ==> (r matches Err(
            SubstanceGetError::Conformance(x, y),
        ) && q_eqv(x, s.amount) && q_eqv(y, first))
        &&& s.amount.num != 0 && step.dims == Map::<u64, int>::empty() && first.num == 0 ==> (
        r matches Err(SubstanceGetError::Generic(m)) && m@ == "Division by zero"@)
        &&& s.amount.num != 0 && step.dims == Map::<u64, int>::empty() && first.num != 0 ==> (
        r matches Ok(q) && q.wf() && q.model() == m_div(second.model(), step))
    }
}

proof fn lemma_dims_map_nonempty(s: Seq<(u64, i64)>)
    requires
        dims_wf(s),
        s.len() != 0,
    ensures
        dims_map(s) != Map::<u64, int>::empty(),
{
    lemma_dims_map_empty(s);
    if dims_map(s) == Map::<u64, int>::empty() {
        assert(dims_map(s) =~= Map::<u64, int>::empty());
    }
}

pub proof fn lemma_mul_bound(x: int, y: int, bx: int, b2: int)
    by (nonlinear_arith)
    requires
        -bx <= x <= bx,
        -b2 <= y <= b2,
        0 <= bx,
        0 <= b2,
    ensures
        -(bx * b2) <= x * y <= bx * b2,
{
}

impl Substance {
    /// Looks up a property or amount name and returns the converted quantity.
    ///
    /// Definitional mode: the name must be a property key; the value is
    /// `(amount * input) / output`.  Instance mode: the name is matched
    /// against each property's output name then input name, in table order;
    /// the derivation is conformance-checked against the sample's amount.
    pub fn get(&self, name: &str) -> (r: Result<Quantity, SubstanceGetError>)
        requires
            self.wf(),
            self.bounded(),
            self.is_definitional() ==> self.def_outputs_nonzero(),
        ensures
            self.is_definitional() ==> get_def_post(*self, name@, r),
            !self.is_definitional() ==> get_inst_post(*self, name@, r),
    {
        let name_own: String = name.to_owned();
        let n = self.properties.len();
        if self.amount.dimensionless() {
            let mut i: usize = 0;
            while i < n
                invariant
                    n == self.properties@.len(),
                    i <= n,
                    name_own@ == name@,
                    self.wf(),
                    self.bounded(),
                    self.def_outputs_nonzero(),
                    self.is_definitional(),
                    forall|k: int| 0 <= k < i ==> (#[trigger] self.properties@[k]).0@ != name@,
                decreases n - i,
            {
                if self.properties[i].0 == name_own {
                    let p = &self.properties[i].1;
                    proof {
                        lemma_mul_bound(
                            self.amount.num as int,
                            p.input.num as int,
                            MAG_BOUND as int,
                            MAG_BOUND as int,
                        );
                        lemma_mul_bound(
                            self.amount.den as int,
                            p.input.den as int,
                            MAG_BOUND as int,
                            MAG_BOUND as int,
                        );
                    }
                    let t = self.amount.multiply(&p.input);
                    proof {
                        assert(dims_bounded(self.amount.dims@, MAG_BOUND as int));
                        assert(dims_bounded(p.input.dims@, MAG_BOUND as int));
                        assert(dims_bounded(t.dims@, 2 * MAG_BOUND as int));
                        lemma_mul_bound(
                            t.num as int,
                            p.output.den as int,
                            MAG_BOUND as int * MAG_BOUND as int,
                            MAG_BOUND as int,
                        );
                        lemma_mul_bound(
                            t.den as int,
                            p.output.num as int,
                            MAG_BOUND as int * MAG_BOUND as int,
                            MAG_BOUND as int,
                        );
                    }
                    let d = t.divide(&p.output);
                    let q = d.unwrap();
                    proof {
                        lemma_lex_lt_irrefl(name@);
                        assert forall|k: int|
                            0 <= k < self.properties@.len() && (#[trigger] self.properties@[k]).0@
                                == name@ implies q.model() == def_value(
                            self.amount,
                            self.properties@[k].1,
                        ) by {
                            if k < i {
                                assert(false);
                            } else if i < k {
                                assert(lex_lt(self.properties@[i as int].0@, self.properties@[k].0@));
                                assert(false);
                            }
                        }
                    }
                    return Ok(q);
                }
                i = i + 1;
            }
            let mut msg: String = "No such property ".to_owned();
            msg.append(name);
            Err(SubstanceGetError::Generic(msg))
        } else {
            let mut i: usize = 0;
            while i < n
                invariant
                    n == self.properties@.len(),
                    i <= n,
                    name_own@ == name@,
                    self.wf(),
                    self.bounded(),
                    !self.is_definitional(),
                    forall|k: int|
                        0 <= k < i ==> (#[trigger] self.properties@[k]).1.output_name@ != name@
                            && self.properties@[k].1.input_name@ != name@,
                decreases n - i,
            {
                let p = &self.properties[i].1;
                let out_side = p.output_name == name_own;
                let in_side = p.input_name == name_own;
                if out_side || in_side {
                    proof {
                        lemma_find_match_skip(self.properties@, name@, i as int);
                        assert(self.properties@.skip(i as int)[0] == self.properties@[i as int]);
                        if out_side {
                            assert(find_match(self.properties@.skip(i as int), name@) == Some(
                                (0int, true),
                            ));
                        } else {
                            assert(find_match(self.properties@.skip(i as int), name@) == Some(
                                (0int, false),
                            ));
                        }
                    }
                    let first = if out_side {
                        &p.input
                    } else {
                        &p.output
                    };
                    let second = if out_side {
                        &p.output
                    } else {
                        &p.input
                    };
                    proof {
                        lemma_mul_bound(
                            first.num as int,
                            self.amount.den as int,
                            MAG_BOUND as int,
                            MAG_BOUND as int,
                        );
                        lemma_mul_bound(
                            first.den as int,
                            self.amount.num as int,
                            MAG_BOUND as int,
                            MAG_BOUND as int,
                        );
                    }
                    let d1 = first.divide(&self.amount);
                    match d1 {
                        None => {
                            return Err(SubstanceGetError::Generic("Division by zero".to_owned()));
                        },
                        Some(step) => {
                            if step.dims.len() == 0 {
                                proof {
                                    assert(dims_map(step.dims@) == Map::<u64, int>::empty());
                                    assert((first.num as int) * (self.amount.den as int) == 0
                                        <==> first.num == 0) by (nonlinear_arith)
                                        requires
                                            self.amount.den > 0,
                                    ;
                                    lemma_mul_bound(
                                        second.num as int,
                                        step.den as int,
                                        MAG_BOUND as int,
                                        MAG_BOUND as int * MAG_BOUND as int,
                                    );
                                    lemma_mul_bound(
                                        second.den as int,
                                        step.num as int,
                                        MAG_BOUND as int,
                                        MAG_BOUND as int * MAG_BOUND as int,
                                    );
                                }
                                let d2 = second.divide(&step);
                                match d2 {
                                    None => {
                                        return Err(
                                            SubstanceGetError::Generic(
                                                "Division by zero".to_owned(),
                                            ),
                                        );
                                    },
                                    Some(q) => {
                                        return Ok(q);
                                    },
                                }
                            } else {
                                proof {
                                    lemma_dims_map_nonempty(step.dims@);
                                }
                                return Err(
                                    SubstanceGetError::Conformance(
                                        self.amount.duplicate(),
                                        first.duplicate(),
                                    ),
                                );
                            }
                        },
                    }
                }
                i = i + 1;
            }
            proof {
                lemma_find_match_skip(self.properties@, name@, n as int);
                assert(self.properties@.skip(n as int) =~= Seq::<(String, Property)>::empty());
            }
            let mut msg: String = "No such property ".to_owned();
            msg.append(name);
            Err(SubstanceGetError::Generic(msg))
        }
    }
}

/// One display record of a reply: a conversion name, an optional input side,
/// the converted output side, and optional documentation.
pub struct PropertyReply {
    pub name: String,
    pub input: Option<Quantity>,
    pub output: Quantity,
    pub doc: Option<String>,
}

/// The ordered list of display records for a substance.
pub struct SubstanceReply {
    pub properties: Vec<PropertyReply>,
}

/// The display collaborator: decomposes quantities into text and formats
/// reply lists.  Used only for messages and final display, never for the
/// arithmetic, so nothing is assumed about its output.
pub trait Renderer {
    /// Text form of a quantity, for error messages.
    fn show_quantity(&self, q: &Quantity) -> String;

    /// The display label of a quantity's kind, when the renderer knows one.
    fn quantity_label(&self, q: &Quantity) -> Option<String>;

    /// Text form of a whole reply list.
    fn show_reply(&self, r: &SubstanceReply) -> String;
}

/// A definitional-mode reply record for property `p` under key `key`.
pub open spec fn def_record_ok(rec: PropertyReply, amount: Quantity, key: String, p: Property) -> bool {
    &&& rec.name@ == key@
    &&& opt_str_eqv(rec.doc, p.doc)
    &&& if p.input.is_dimensionless() {
        &&& rec.input is None
        &&& rec.output.wf()
        &&& rec.output.model() == m_div(m_mul(p.output.model(), amount.model()), p.input.model())
    } else {
        &&& rec.input matches Some(qi) && q_eqv(qi, p.input)
        &&& q_eqv(rec.output, p.output)
    }
}

/// The text of every failed reply: a zero-division message naming both
/// operands, so it begins with this fixed prefix.
pub open spec fn div_zero_msg(m: Seq<char>) -> bool {
    m.len() >= 19 && m.subrange(0, 19) == "Division by zero: <"@
}

/// A definitional reply succeeds exactly when no dimensionless input ratio
/// has a zero magnitude (one bad property aborts the whole reply).
pub open spec fn def_reply_succeeds(s: Substance) -> bool {
    forall|i: int|
        0 <= i < s.properties@.len() ==> ((#[trigger] s.properties@[i]).1.input.is_dimensionless()
            ==> s.properties@[i].1.input.num != 0)
}

/// What `to_reply` returns in definitional mode: one record per property,
/// in table order.
pub open spec fn def_reply_post(s: Substance, r: Result<SubstanceReply, String>) -> bool {
    &&& r is Ok <==> def_reply_succeeds(s)
    &&& r matches Err(m) ==> div_zero_msg(m@)
    &&& r matches Ok(rep) ==> {
        &&& rep.properties@.len() == s.properties@.len()
        &&& forall|i: int|
            0 <= i < s.properties@.len() ==> def_record_ok(
                #[trigger] rep.properties@[i],
                s.amount,
                s.properties@[i].0,
                s.properties@[i].1,
            )
    }
}

/// Neither side of the property cancels against the sample's amount, so the
/// instance view silently omits it.
pub open spec fn inst_drop(amount: Quantity, p: Property) -> bool {
    &&& m_div(p.input.model(), amount.model()).dims != Map::<u64, int>::empty()
    &&& m_div(p.output.model(), amount.model()).dims != Map::<u64, int>::empty()
}

/// The properties an instance reply keeps, in table order.
pub open spec fn kept_props(amount: Quantity, props: Seq<(String, Property)>) -> Seq<Property>
    decreases props.len(),
{
    if props.len() == 0 {
        Seq::empty()
    } else {
        kept_props(amount, props.drop_last()) + (if inst_drop(amount, props.last().1) {
            Seq::empty()
        } else {
            seq![props.last().1]
        })
    }
}

/// An instance-mode reply record for kept property `p`: named after whichever
/// side cancels against the amount (output side wins), no input side.
pub open spec fn inst_record_ok(rec: PropertyReply, amount: Quantity, p: Property) -> bool {
    let ind = m_div(p.input.model(), amount.model());
    let outd = m_div(p.output.model(), amount.model());
    &&& rec.input is None
    &&& opt_str_eqv(rec.doc, p.doc)
    &&& rec.output.wf()
    &&& if ind.dims == Map::<u64, int>::empty() {
        &&& rec.name@ == p.output_name@
        &&& rec.output.model() == m_div(p.output.model(), ind)
    } else {
        &&& rec.name@ == p.input_name@
        &&& rec.output.model() == m_div(p.input.model(), outd)
    }
}

/// A division in the instance derivation of `p` is undefined: the reply as a
/// whole fails with a zero-division message.
pub open spec fn inst_prop_fails(amount: Quantity, p: Property) -> bool {
    let ind = m_div(p.input.model(), amount.model());
    let outd = m_div(p.output.model(), amount.model());
    ||| amount.num == 0
    ||| (ind.dims == Map::<u64, int>::empty() && p.input.num == 0)
    ||| (ind.dims != Map::<u64, int>::empty() && outd.dims == Map::<u64, int>::empty()
        && p.output.num == 0)
}

/// What `to_reply` returns in instance mode: a leading record for the amount
/// itself, then one record per kept property, in table order.
pub open spec fn inst_reply_post(s: Substance, r: Result<SubstanceReply, String>) -> bool {
    let kept = kept_props(s.amount, s.properties@);
    &&& (r is Ok <==> forall|i: int|
        0 <= i < s.properties@.len() ==> !inst_prop_fails(
            s.amount,
            (#[trigger] s.properties@[i]).1,
        ))
    &&& r matches Err(m) ==> div_zero_msg(m@)
    &&& r matches Ok(rep) ==> {
        &&& rep.properties@.len() == 1 + kept.len()
        &&& rep.properties@[0].input is None
        &&& rep.properties@[0].doc is None
        &&& q_eqv(rep.properties@[0].output, s.amount)
        &&& forall|k: int|
            0 <= k < kept.len() ==> inst_record_ok(
                #[trigger] rep.properties@[k + 1],
                s.amount,
                kept[k],
            )
    }
}

/// Keys and properties pairwise hold the same values.
pub open spec fn props_eqv(a: Seq<(String, Property)>, b: Seq<(String, Property)>) -> bool {
    &&& a.len() == b.len()
    &&& forall|i: int|
        0 <= i < a.len() ==> (#[trigger] a[i]).0@ == b[i].0@ && prop_eqv(a[i].1, b[i].1)
}

/// Deep copy of a property table.
fn clone_properties(props: &Vec<(String, Property)>) -> (r: Vec<(String, Property)>)
    ensures
        props_eqv(r@, props@),
{
    let n = props.len();
    let mut r: Vec<(String, Property)> = Vec::new();
    let mut i: usize = 0;
    while i < n
        invariant
            n == props@.len(),
            i <= n,
            r@.len() == i,
            forall|k: int|
                0 <= k < i ==> (#[trigger] r@[k]).0@ == props@[k].0@ && prop_eqv(
                    r@[k].1,
                    props@[k].1,
                ),
        decreases n - i,
    {
        let entry = &props[i];
        r.push((entry.0.clone(), entry.1.duplicate()));
        i = i + 1;
    }
    r
}

impl Substance {
    /// The ordered display records covering every known conversion of this
    /// substance, or a zero-division message built with the renderer.
    pub fn to_reply<R: Renderer>(&self, renderer: &R) -> (r: Result<SubstanceReply, String>)
        requires
            self.wf(),
            self.bounded(),
        ensures
            self.is_definitional() ==> def_reply_post(*self, r),
            !self.is_definitional() ==> inst_reply_post(*self, r),
    {
        let n = self.properties.len();
        if self.amount.dimensionless() {
            let mut recs: Vec<PropertyReply> = Vec::new();
            let mut i: usize = 0;
            while i < n
                invariant
                    n == self.properties@.len(),
                    i <= n,
                    self.wf(),
                    self.bounded(),
                    self.is_definitional(),
                    recs@.len() == i,
                    forall|k: int|
                        0 <= k < i ==> ((#[trigger] self.properties@[k]).1.input.is_dimensionless()
                            ==> self.properties@[k].1.input.num != 0),
                    forall|k: int|
                        0 <= k < i ==> def_record_ok(
                            #[trigger] recs@[k],
                            self.amount,
                            self.properties@[k].0,
                            self.properties@[k].1,
                        ),
                decreases n - i,
            {
                let key = &self.properties[i].0;
                let p = &self.properties[i].1;
                if p.input.dimensionless() {
                    proof {
                        lemma_mul_bound(
                            p.output.num as int,
                            self.amount.num as int,
                            MAG_BOUND as int,
                            MAG_BOUND as int,
                        );
                        lemma_mul_bound(
                            p.output.den as int,
                            self.amount.den as int,
                            MAG_BOUND as int,
                            MAG_BOUND as int,
                        );
                    }
                    let res = p.output.multiply(&self.amount);
                    proof {
                        assert(dims_bounded(p.output.dims@, MAG_BOUND as int));
                        assert(dims_bounded(self.amount.dims@, MAG_BOUND as int));
                        assert(dims_bounded(res.dims@, 2 * MAG_BOUND as int));
                        lemma_mul_bound(
                            res.num as int,
                            p.input.den as int,
                            MAG_BOUND as int * MAG_BOUND as int,
                            MAG_BOUND as int,
                        );
                        lemma_mul_bound(
                            res.den as int,
                            p.input.num as int,
                            MAG_BOUND as int * MAG_BOUND as int,
                            MAG_BOUND as int,
                        );
                    }
                    match res.divide(&p.input) {
                        None => {
                            let mut msg: String = "Division by zero: <".to_owned();
                            msg.append(renderer.show_quantity(&res).as_str());
                            msg.append("> / <");
                            msg.append(renderer.show_quantity(&p.input).as_str());
                            msg.append(">");
                            proof {
                                reveal_strlit("Division by zero: <");
                                assert(msg@.subrange(0, 19) =~= "Division by zero: <"@);
                            }
                            return Err(msg);
                        },
                        Some(derived) => {
                            recs.push(
                                PropertyReply {
                                    name: key.clone(),
                                    input: None,
                                    output: derived,
                                    doc: match &p.doc {
                                        Some(d) => Some(d.clone()),
                                        None => None,
                                    },
                                },
                            );
                        },
                    }
                } else {
                    recs.push(
                        PropertyReply {
                            name: key.clone(),
                            input: Some(p.input.duplicate()),
                            output: p.output.duplicate(),
                            doc: match &p.doc {
                                Some(d) => Some(d.clone()),
                                None => None,
                            },
                        },
                    );
                }
                i = i + 1;
            }
            Ok(SubstanceReply { properties: recs })
        } else {
            let mut recs: Vec<PropertyReply> = Vec::new();
            let label = match renderer.quantity_label(&self.amount) {
                Some(l) => l,
                None => "amount".to_owned(),
            };
            recs.push(
                PropertyReply { name: label, input: None, output: self.amount.duplicate(), doc: None },
            );
            let mut i: usize = 0;
            while i < n
                invariant
                    n == self.properties@.len(),
                    i <= n,
                    self.wf(),
                    self.bounded(),
                    !self.is_definitional(),
                    recs@.len() == 1 + kept_props(self.amount, self.properties@.take(i as int)).len(),
                    recs@[0].input is None,
                    recs@[0].doc is None,
                    q_eqv(recs@[0].output, self.amount),
                    forall|k: int|
                        0 <= k < i ==> !inst_prop_fails(
                            self.amount,
                            (#[trigger] self.properties@[k]).1,
                        ),
                    forall|k: int|
                        0 <= k < kept_props(self.amount, self.properties@.take(i as int)).len()
                            ==> inst_record_ok(
                            #[trigger] recs@[k + 1],
                            self.amount,
                            kept_props(self.amount, self.properties@.take(i as int))[k],
                        ),
                decreases n - i,
            {
                let ghost prefix = self.properties@.take(i as int);
                let ghost kept_before = kept_props(self.amount, prefix);
                proof {
                    assert(self.properties@.take(i as int + 1).drop_last() =~= prefix);
                    assert(self.properties@.take(i as int + 1).last() == self.properties@[i as int]);
                }
                let p = &self.properties[i].1;
                proof {
                    lemma_mul_bound(
                        p.input.num as int,
                        self.amount.den as int,
                        MAG_BOUND as int,
                        MAG_BOUND as int,
                    );
                    lemma_mul_bound(
                        p.input.den as int,
                        self.amount.num as int,
                        MAG_BOUND as int,
                        MAG_BOUND as int,
                    );
                    lemma_mul_bound(
                        p.output.num as int,
                        self.amount.den as int,
                        MAG_BOUND as int,
                        MAG_BOUND as int,
                    );
                    lemma_mul_bound(
                        p.output.den as int,
                        self.amount.num as int,
                        MAG_BOUND as int,
                        MAG_BOUND as int,
                    );
                }
                let d_in = p.input.divide(&self.amount);
                let d_out = p.output.divide(&self.amount);
                match (d_in, d_out) {
                    (Some(ind), Some(outd)) => {
                        proof {
                            assert((p.input.num as int) * (self.amount.den as int) == 0 <==> p.input.num
                                == 0) by (nonlinear_arith)
                                requires
                                    self.amount.den > 0,
                            ;
                            assert((p.output.num as int) * (self.amount.den as int) == 0
                                <==> p.output.num == 0) by (nonlinear_arith)
                                requires
                                    self.amount.den > 0,
                            ;
                        }
                        if ind.dims.len() == 0 {
                            proof {
                                assert(dims_map(ind.dims@) == Map::<u64, int>::empty());
                                lemma_mul_bound(
                                    p.output.num as int,
                                    ind.den as int,
                                    MAG_BOUND as int,
                                    MAG_BOUND as int * MAG_BOUND as int,
                                );
                                lemma_mul_bound(
                                    p.output.den as int,
                                    ind.num as int,
                                    MAG_BOUND as int,
                                    MAG_BOUND as int * MAG_BOUND as int,
                                );
                            }
                            match p.output.divide(&ind) {
                                None => {
                                    let mut msg: String = "Division by zero: <".to_owned();
                                    msg.append(renderer.show_quantity(&p.output).as_str());
                                    msg.append("> / <");
                                    msg.append(renderer.show_quantity(&ind).as_str());
                                    msg.append(">");
                                    proof {
                                        reveal_strlit("Division by zero: <");
                                        assert(msg@.subrange(0, 19) =~= "Division by zero: <"@);
                                    }
                                    return Err(msg);
                                },
                                Some(div) => {
                                    recs.push(
                                        PropertyReply {
                                            name: p.output_name.clone(),
                                            input: None,
                                            output: div,
                                            doc: match &p.doc {
                                                Some(d) => Some(d.clone()),
                                                None => None,
                                            },
                                        },
                                    );
                                    proof {
                                        assert(kept_props(
                                            self.amount,
                                            self.properties@.take(i as int + 1),
                                        ) =~= kept_before + seq![self.properties@[i as int].1]);
                                    }
                                },
                            }
                        } else {
                            proof {
                                lemma_dims_map_nonempty(ind.dims@);
                            }
                            if outd.dims.len() == 0 {
                                proof {
                                    assert(dims_map(outd.dims@) == Map::<u64, int>::empty());
                                    lemma_mul_bound(
                                        p.input.num as int,
                                        outd.den as int,
                                        MAG_BOUND as int,
                                        MAG_BOUND as int * MAG_BOUND as int,
                                    );
                                    lemma_mul_bound(
                                        p.input.den as int,
                                        outd.num as int,
                                        MAG_BOUND as int,
                                        MAG_BOUND as int * MAG_BOUND as int,
                                    );
                                }
                                match p.input.divide(&outd) {
                                    None => {
                                        let mut msg: String = "Division by zero: <".to_owned();
                                        msg.append(renderer.show_quantity(&p.input).as_str());
                                        msg.append("> / <");
                                        msg.append(renderer.show_quantity(&outd).as_str());
                                        msg.append(">");
                                        proof {
                                            reveal_strlit("Division by zero: <");
                                            assert(msg@.subrange(0, 19) =~= "Division by zero: <"@);
                                        }
                                        return Err(msg);
                                    },
                                    Some(div) => {
                                        recs.push(
                                            PropertyReply {
                                                name: p.input_name.clone(),
                                                input: None,
                                                output: div,
                                                doc: match &p.doc {
                                                    Some(d) => Some(d.clone()),
                                                    None => None,
                                                },
                                            },
                                        );
                                        proof {
                                            assert(kept_props(
                                                self.amount,
                                                self.properties@.take(i as int + 1),
                                            ) =~= kept_before + seq![self.properties@[i as int].1]);
                                        }
                                    },
                                }
                            } else {
                                proof {
                                    lemma_dims_map_nonempty(outd.dims@);
                                    assert(kept_props(
                                        self.amount,
                                        self.properties@.take(i as int + 1),
                                    ) =~= kept_before);
                                }
                            }
                        }
                    },
                    _ => {
                        let mut msg: String = "Division by zero: <".to_owned();
                        msg.append(renderer.show_quantity(&p.input).as_str());
                        msg.append("> / <");
                        msg.append(renderer.show_quantity(&self.amount).as_str());
                        msg.append(">");
                        proof {
                            reveal_strlit("Division by zero: <");
                            assert(msg@.subrange(0, 19) =~= "Division by zero: <"@);
                        }
                        return Err(msg);
                    },
                }
                i = i + 1;
            }
            proof {
                assert(self.properties@.take(n as int) =~= self.properties@);
            }
            Ok(SubstanceReply { properties: recs })
        }
    }

    /// Renders the reply, or returns the error message verbatim on failure.
    /// On success the text is the renderer's and carries no further
    /// guarantee.
    pub fn show<R: Renderer>(&self, renderer: &R) -> (r: String)
        requires
            self.wf(),
            self.bounded(),
        ensures
            exists|rr: Result<SubstanceReply, String>|
                #![auto]
                {
                    &&& (self.is_definitional() ==> def_reply_post(*self, rr))
                    &&& (!self.is_definitional() ==> inst_reply_post(*self, rr))
                    &&& (rr matches Err(e) ==> r@ == e@)
                },
    {
        let rr = self.to_reply(renderer);
        let ghost w = rr;
        let r = match rr {
            Ok(v) => renderer.show_reply(&v),
            Err(e) => e,
        };
        proof {
            assert((self.is_definitional() ==> def_reply_post(*self, w)) && (
            !self.is_definitional() ==> inst_reply_post(*self, w)) && (w matches Err(e) ==> r@
                == e@));
        }
        r
    }

    /// Scaling: a new substance with `amount * other` and an identical
    /// (deep-copied) property table.  Never fails.
    pub fn times(&self, other: &Quantity) -> (r: Result<Substance, String>)
        requires
            self.wf(),
            other.wf(),
            mul_fits(self.amount.num as int, other.num as int),
            mul_fits(self.amount.den as int, other.den as int),
            dims_bounded(self.amount.dims@, EXP_BOUND as int),
            dims_bounded(other.dims@, EXP_BOUND as int),
        ensures
            r matches Ok(s2) && s2.wf() && s2.amount.model() == m_mul(
                self.amount.model(),
                other.model(),
            ) && props_eqv(s2.properties@, self.properties@),
    {
        let s2 = Substance {
            amount: self.amount.multiply(other),
            properties: clone_properties(&self.properties),
        };
        Ok(s2)
    }

    /// Scaling: a new substance with `amount / other` and an identical
    /// (deep-copied) property table; fails exactly when the divisor's
    /// magnitude is zero.
    pub fn divided_by(&self, other: &Quantity) -> (r: Result<Substance, String>)
        requires
            self.wf(),
            other.wf(),
            mul_fits(self.amount.num as int, other.den as int),
            mul_fits(self.amount.den as int, other.num as int),
            dims_bounded(self.amount.dims@, EXP_BOUND as int),
            dims_bounded(other.dims@, EXP_BOUND as int),
        ensures
            r is Ok <==> other.num != 0,
            r matches Ok(s2) ==> s2.wf() && s2.amount.model() == m_div(
                self.amount.model(),
                other.model(),
            ) && props_eqv(s2.properties@, self.properties@),
            r matches Err(m) ==> m@ == "Division by zero"@,
    {
        match self.amount.divide(other) {
            None => Err("Division by zero".to_owned()),
            Some(amount) => Ok(
                Substance { amount, properties: clone_properties(&self.properties) },
            ),
        }
    }
}

} // verus!
