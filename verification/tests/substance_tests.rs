use substances::quantity::Quantity;
use substances::substance::{
    Property, PropertyReply, Renderer, Substance, SubstanceGetError, SubstanceReply,
};

// Base-unit ids used throughout the tests.
const G: u64 = 1;
const ML: u64 = 2;
const S: u64 = 3;

fn q(num: i64, den: i64, dims: Vec<(u64, i64)>) -> Quantity {
    Quantity { num, den, dims }
}

fn gold_property() -> Property {
    // density-like ratio: 19.3 g corresponds to 1 mL
    Property {
        input: q(193, 10, vec![(G, 1)]),
        input_name: "g".to_owned(),
        output: q(1, 1, vec![(ML, 1)]),
        output_name: "mL".to_owned(),
        doc: Some("density".to_owned()),
    }
}

fn gold_substance(amount: Quantity) -> Substance {
    Substance { amount, properties: vec![("gold".to_owned(), gold_property())] }
}

struct PlainRenderer;

impl Renderer for PlainRenderer {
    fn show_quantity(&self, q: &Quantity) -> String {
        format!("{}/{}", q.num, q.den)
    }

    fn quantity_label(&self, _q: &Quantity) -> Option<String> {
        None
    }

    fn show_reply(&self, r: &SubstanceReply) -> String {
        let names: Vec<&str> = r.properties.iter().map(|p| p.name.as_str()).collect();
        names.join(", ")
    }
}

fn assert_quantity(q: &Quantity, num: i64, den: i64, dims: &[(u64, i64)]) {
    assert_eq!(q.num, num);
    assert_eq!(q.den, den);
    assert_eq!(q.dims, dims.to_vec());
}

#[test]
fn definitional_get_known_property() {
    let s = gold_substance(q(1, 1, vec![]));
    match s.get("gold") {
        Ok(v) => assert_quantity(&v, 193, 10, &[(G, 1), (ML, -1)]),
        Err(_) => panic!("lookup must succeed"),
    }
}

#[test]
fn definitional_get_missing_property() {
    let s = gold_substance(q(1, 1, vec![]));
    match s.get("silver") {
        Err(SubstanceGetError::Generic(m)) => assert_eq!(m, "No such property silver"),
        _ => panic!("lookup must fail with the missing-name message"),
    }
}

#[test]
fn instance_get_output_side() {
    // 10 g of gold: 19.3 g / 10 g = 1.93, so 1 mL / 1.93 = 100/193 mL
    let s = gold_substance(q(10, 1, vec![(G, 1)]));
    match s.get("mL") {
        Ok(v) => assert_quantity(&v, 100, 193, &[(ML, 1)]),
        Err(_) => panic!("lookup must succeed"),
    }
}

#[test]
fn instance_get_input_side() {
    // 2 mL of gold weighs 2 * 19.3 g = 386/10 g
    let s = gold_substance(q(2, 1, vec![(ML, 1)]));
    match s.get("g") {
        Ok(v) => assert_quantity(&v, 386, 10, &[(G, 1)]),
        Err(_) => panic!("lookup must succeed"),
    }
}

#[test]
fn instance_get_conformance_failure() {
    // 10 seconds has the wrong dimension for a mass-based ratio
    let s = gold_substance(q(10, 1, vec![(S, 1)]));
    match s.get("mL") {
        Err(SubstanceGetError::Conformance(a, b)) => {
            assert_quantity(&a, 10, 1, &[(S, 1)]);
            assert_quantity(&b, 193, 10, &[(G, 1)]);
        },
        _ => panic!("lookup must fail with a conformance error"),
    }
}

#[test]
fn instance_get_zero_amount() {
    let s = gold_substance(q(0, 1, vec![(G, 1)]));
    match s.get("mL") {
        Err(SubstanceGetError::Generic(m)) => assert_eq!(m, "Division by zero"),
        _ => panic!("a zero sample size must fail the derivation"),
    }
}

#[test]
fn instance_get_missing_name() {
    let s = gold_substance(q(10, 1, vec![(G, 1)]));
    match s.get("kg") {
        Err(SubstanceGetError::Generic(m)) => assert_eq!(m, "No such property kg"),
        _ => panic!("lookup must fail with the missing-name message"),
    }
}

#[test]
fn definitional_reply_one_record_per_property() {
    // "alpha" has a dimensionless input and is re-derived; "gold" passes through
    let alpha = Property {
        input: q(2, 1, vec![]),
        input_name: "one".to_owned(),
        output: q(3, 1, vec![(ML, 1)]),
        output_name: "mL".to_owned(),
        doc: None,
    };
    let s = Substance {
        amount: q(1, 1, vec![]),
        properties: vec![("alpha".to_owned(), alpha), ("gold".to_owned(), gold_property())],
    };
    let rep = s.to_reply(&PlainRenderer).expect("reply must succeed");
    assert_eq!(rep.properties.len(), 2);

    let a: &PropertyReply = &rep.properties[0];
    assert_eq!(a.name, "alpha");
    assert!(a.input.is_none());
    assert_quantity(&a.output, 3, 2, &[(ML, 1)]);
    assert!(a.doc.is_none());

    let g: &PropertyReply = &rep.properties[1];
    assert_eq!(g.name, "gold");
    match &g.input {
        Some(i) => assert_quantity(i, 193, 10, &[(G, 1)]),
        None => panic!("pass-through records keep their input side"),
    }
    assert_quantity(&g.output, 1, 1, &[(ML, 1)]);
    assert_eq!(g.doc.as_deref(), Some("density"));
}

#[test]
fn definitional_reply_scales_with_amount() {
    // defining input of exactly 1: a reply recovers amount * output
    let p = Property {
        input: q(1, 1, vec![]),
        input_name: "one".to_owned(),
        output: q(7, 2, vec![(ML, 1)]),
        output_name: "mL".to_owned(),
        doc: None,
    };
    let s = Substance { amount: q(4, 1, vec![]), properties: vec![("beta".to_owned(), p)] };
    let rep = s.to_reply(&PlainRenderer).expect("reply must succeed");
    assert_eq!(rep.properties.len(), 1);
    assert_quantity(&rep.properties[0].output, 28, 2, &[(ML, 1)]);
}

#[test]
fn definitional_reply_recovers_constant_at_unit_amount() {
    // defining input of exactly 1 and amount = 1: a reply recovers the
    // output constant itself
    let p = Property {
        input: q(1, 1, vec![]),
        input_name: "one".to_owned(),
        output: q(7, 2, vec![(ML, 1)]),
        output_name: "mL".to_owned(),
        doc: None,
    };
    let s = Substance { amount: q(1, 1, vec![]), properties: vec![("beta".to_owned(), p)] };
    let rep = s.to_reply(&PlainRenderer).expect("reply must succeed");
    assert_eq!(rep.properties.len(), 1);
    assert_quantity(&rep.properties[0].output, 7, 2, &[(ML, 1)]);
}

#[test]
fn empty_property_table() {
    let definitional = Substance { amount: q(1, 1, vec![]), properties: vec![] };
    let rep = definitional.to_reply(&PlainRenderer).expect("reply must succeed");
    assert!(rep.properties.is_empty());
    match definitional.get("gold") {
        Err(SubstanceGetError::Generic(m)) => assert_eq!(m, "No such property gold"),
        _ => panic!("lookup in an empty table must fail"),
    }

    // an instance reply still leads with the amount record
    let instance = Substance { amount: q(10, 1, vec![(G, 1)]), properties: vec![] };
    let rep = instance.to_reply(&PlainRenderer).expect("reply must succeed");
    assert_eq!(rep.properties.len(), 1);
    assert_eq!(rep.properties[0].name, "amount");
}

#[test]
fn definitional_reply_division_by_zero() {
    let p = Property {
        input: q(0, 1, vec![]),
        input_name: "one".to_owned(),
        output: q(3, 1, vec![(ML, 1)]),
        output_name: "mL".to_owned(),
        doc: None,
    };
    let s = Substance { amount: q(1, 1, vec![]), properties: vec![("bad".to_owned(), p)] };
    match s.to_reply(&PlainRenderer) {
        Err(m) => assert_eq!(m, "Division by zero: <3/1> / <0/1>"),
        Ok(_) => panic!("a zero defining input must abort the whole reply"),
    }
}

#[test]
fn instance_reply_filters_nonconformant_properties() {
    let span = Property {
        input: q(5, 1, vec![(S, 1)]),
        input_name: "s".to_owned(),
        output: q(1, 1, vec![(ML, 1)]),
        output_name: "mLs".to_owned(),
        doc: None,
    };
    let s = Substance {
        amount: q(10, 1, vec![(G, 1)]),
        properties: vec![("gold".to_owned(), gold_property()), ("span".to_owned(), span)],
    };
    let rep = s.to_reply(&PlainRenderer).expect("reply must succeed");
    // the leading amount record, plus gold; span cancels on neither side
    assert_eq!(rep.properties.len(), 2);

    let amount_rec = &rep.properties[0];
    assert_eq!(amount_rec.name, "amount");
    assert!(amount_rec.input.is_none());
    assert!(amount_rec.doc.is_none());
    assert_quantity(&amount_rec.output, 10, 1, &[(G, 1)]);

    let gold_rec = &rep.properties[1];
    assert_eq!(gold_rec.name, "mL");
    assert!(gold_rec.input.is_none());
    assert_quantity(&gold_rec.output, 100, 193, &[(ML, 1)]);
    assert_eq!(gold_rec.doc.as_deref(), Some("density"));
}

#[test]
fn instance_reply_input_side_record() {
    // a volume sample: the ratio cancels on its output side, so the record
    // carries the input-side name and the derived mass
    let s = gold_substance(q(2, 1, vec![(ML, 1)]));
    let rep = s.to_reply(&PlainRenderer).expect("reply must succeed");
    assert_eq!(rep.properties.len(), 2);
    let rec = &rep.properties[1];
    assert_eq!(rec.name, "g");
    assert!(rec.input.is_none());
    assert_quantity(&rec.output, 386, 10, &[(G, 1)]);
}

#[test]
fn instance_reply_zero_amount() {
    let s = gold_substance(q(0, 1, vec![(G, 1)]));
    match s.to_reply(&PlainRenderer) {
        Err(m) => assert_eq!(m, "Division by zero: <193/10> / <0/1>"),
        Ok(_) => panic!("a zero sample size must abort the reply"),
    }
}

#[test]
fn show_folds_errors_into_text() {
    let s = gold_substance(q(0, 1, vec![(G, 1)]));
    assert_eq!(s.show(&PlainRenderer), "Division by zero: <193/10> / <0/1>");
    let ok = gold_substance(q(10, 1, vec![(G, 1)]));
    assert_eq!(ok.show(&PlainRenderer), "amount, mL");
}

#[test]
fn scaling_multiplies_amount_and_keeps_properties() {
    let s = gold_substance(q(10, 1, vec![(G, 1)]));
    let scaled = s.times(&q(2, 1, vec![])).expect("multiplication never fails");
    assert_quantity(&scaled.amount, 20, 1, &[(G, 1)]);
    assert_eq!(scaled.properties.len(), 1);
    assert_eq!(scaled.properties[0].0, "gold");
    assert_quantity(&scaled.properties[0].1.input, 193, 10, &[(G, 1)]);
}

#[test]
fn scaling_division_by_zero() {
    let s = gold_substance(q(10, 1, vec![(G, 1)]));
    match s.divided_by(&q(0, 1, vec![])) {
        Err(m) => assert_eq!(m, "Division by zero"),
        Ok(_) => panic!("dividing by a zero magnitude must fail"),
    }
}

#[test]
fn scaling_round_trip_reproduces_amount() {
    let s = gold_substance(q(10, 1, vec![(G, 1)]));
    let q1 = q(3, 2, vec![(ML, 1)]);
    let down = s.divided_by(&q1).expect("nonzero divisor");
    let up = down.times(&q1).expect("multiplication never fails");
    // same rational value and dimension as the original amount
    assert_eq!(up.amount.num as i128 * s.amount.den as i128,
               s.amount.num as i128 * up.amount.den as i128);
    assert_eq!(up.amount.dims, s.amount.dims);
    // property table unchanged, structurally
    assert_eq!(up.properties.len(), 1);
    assert_eq!(up.properties[0].0, "gold");
    let p = &up.properties[0].1;
    assert_quantity(&p.input, 193, 10, &[(G, 1)]);
    assert_quantity(&p.output, 1, 1, &[(ML, 1)]);
    assert_eq!(p.input_name, "g");
    assert_eq!(p.output_name, "mL");
    assert_eq!(p.doc.as_deref(), Some("density"));
}

#[test]
fn quantity_division_undefined_on_zero() {
    let a = q(1, 1, vec![(G, 1)]);
    let zero = q(0, 1, vec![]);
    assert!(a.divide(&zero).is_none());
    let b = a.divide(&q(-2, 1, vec![])).expect("nonzero divisor");
    // denominator stays positive under a negative divisor
    assert_quantity(&b, -1, 2, &[(G, 1)]);
}

#[test]
fn quantity_multiplication_merges_dimensions() {
    let a = q(3, 2, vec![(G, 1), (ML, -1)]);
    let b = q(5, 1, vec![(ML, 1), (S, 2)]);
    let c = a.multiply(&b);
    assert_quantity(&c, 15, 2, &[(G, 1), (S, 2)]);
}
