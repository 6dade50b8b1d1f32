//! Dimensioned quantities: an exact rational magnitude together with a sparse
//! dimension vector (base-unit id, exponent), kept sorted by unit id.

use vstd::prelude::*;

verus! {

/// Magnitude components of substance data are kept within this bound so that
/// every product in a two-step derivation chain still fits in 64 bits.
pub const MAG_BOUND: i64 = 0x10_0000;

/// Exponents admitted by the dimension-vector operations: sums of two such
/// exponents always fit in 64 bits.
pub const EXP_BOUND: i64 = 0x2000_0000_0000_0000;

pub open spec fn sgn(x: int) -> int {
    if x > 0 {
        1
    } else if x == 0 {
        0
    } else {
        -1
    }
}

/// Both 64-bit factors and their product (and its negation) fit in 64 bits.
pub open spec fn mul_fits(x: int, y: int) -> bool {
    -0x7fff_ffff_ffff_ffff <= x * y <= 0x7fff_ffff_ffff_ffff
}

/// A well-formed dimension vector: unit ids strictly increasing, no zero
/// exponent, so each dimension mapping has exactly one representation.
pub open spec fn dims_wf(s: Seq<(u64, i64)>) -> bool {
    &&& forall|i: int, j: int|
        0 <= i < j < s.len() ==> (#[trigger] s[i]).0 < (#[trigger] s[j]).0
    &&& forall|i: int| 0 <= i < s.len() ==> (#[trigger] s[i]).1 != 0
}

/// All exponents of the vector lie within `[-b, b]`.
pub open spec fn dims_bounded(s: Seq<(u64, i64)>, b: int) -> bool {
    forall|i: int| 0 <= i < s.len() ==> -b <= (#[trigger] s[i]).1 <= b
}

/// The mapping a dimension vector denotes: base-unit id to exponent.
pub open spec fn dims_map(s: Seq<(u64, i64)>) -> Map<u64, int>
    decreases s.len(),
{
    if s.len() == 0 {
        Map::empty()
    } else {
        dims_map(s.drop_last()).insert(s.last().0, s.last().1 as int)
    }
}

/// The exponent of unit `u` in mapping `m`, zero when absent.
pub open spec fn dim_at(m: Map<u64, int>, u: u64) -> int {
    if m.dom().contains(u) {
        m[u]
    } else {
        0
    }
}

/// Component-wise sum of two dimension mappings, zero entries removed.
pub open spec fn dim_sum(a: Map<u64, int>, b: Map<u64, int>) -> Map<u64, int> {
    Map::new(
        |u: u64| dim_at(a, u) + dim_at(b, u) != 0,
        |u: u64| dim_at(a, u) + dim_at(b, u),
    )
}

/// Component-wise difference of two dimension mappings, zero entries removed.
pub open spec fn dim_diff(a: Map<u64, int>, b: Map<u64, int>) -> Map<u64, int> {
    Map::new(
        |u: u64| dim_at(a, u) - dim_at(b, u) != 0,
        |u: u64| dim_at(a, u) - dim_at(b, u),
    )
}

/// Every entry of a well-formed vector is present in its mapping, and the
/// mapping holds nothing else.
pub proof fn lemma_dims_map_entries(s: Seq<(u64, i64)>)
    requires
        dims_wf(s),
    ensures
        forall|i: int|
            0 <= i < s.len() ==> dims_map(s).dom().contains((#[trigger] s[i]).0)
                && dims_map(s)[s[i].0] == s[i].1 as int,
        forall|u: u64|
            dims_map(s).dom().contains(u) ==> exists|i: int|
                0 <= i < s.len() && (#[trigger] s[i]).0 == u,
    decreases s.len(),
{
    if s.len() > 0 {
        assert(dims_wf(s.drop_last()));
        lemma_dims_map_entries(s.drop_last());
        assert forall|i: int| 0 <= i < s.len() implies dims_map(s).dom().contains(
            (#[trigger] s[i]).0,
        ) && dims_map(s)[s[i].0] == s[i].1 as int by {
            if i < s.len() - 1 {
                assert(s.drop_last()[i] == s[i]);
                assert(s[i].0 < s.last().0);
            }
        }
        assert forall|u: u64| dims_map(s).dom().contains(u) implies exists|i: int|
            0 <= i < s.len() && (#[trigger] s[i]).0 == u by {
            if u != s.last().0 {
                assert(dims_map(s.drop_last()).dom().contains(u));
                let i = choose|i: int| 0 <= i < s.drop_last().len() && (#[trigger] s.drop_last()[i]).0 == u;
                assert(s.drop_last()[i] == s[i]);
                assert(s[i].0 == u);
            } else {
                assert(s[s.len() - 1].0 == u);
            }
        }
    }
}

/// A well-formed dimension vector is empty exactly when its mapping is.
pub proof fn lemma_dims_map_empty(s: Seq<(u64, i64)>)
    requires
        dims_wf(s),
    ensures
        s.len() == 0 <==> dims_map(s) =~= Map::<u64, int>::empty(),
{
    lemma_dims_map_entries(s);
    if s.len() > 0 {
        assert(dims_map(s).dom().contains(s[0].0));
    }
}

/// Exponent bounds on the vector carry over to every value of its mapping.
pub proof fn lemma_dims_map_bounded(s: Seq<(u64, i64)>, b: int)
    requires
        dims_wf(s),
        dims_bounded(s, b),
        b >= 0,
    ensures
        forall|u: u64| -b <= #[trigger] dim_at(dims_map(s), u) <= b,
{
    lemma_dims_map_entries(s);
    assert forall|u: u64| -b <= #[trigger] dim_at(dims_map(s), u) <= b by {
        if dims_map(s).dom().contains(u) {
            let i = choose|i: int| 0 <= i < s.len() && (#[trigger] s[i]).0 == u;
            assert(dims_map(s)[u] == s[i].1 as int);
        }
    }
}

/// Two well-formed vectors denote the same mapping exactly when their
/// difference mapping is empty (dimensional conformance).
pub proof fn lemma_dim_diff_empty(s1: Seq<(u64, i64)>, s2: Seq<(u64, i64)>)
    requires
        dims_wf(s1),
        dims_wf(s2),
    ensures
        dim_diff(dims_map(s1), dims_map(s2)) =~= Map::<u64, int>::empty() <==> dims_map(s1)
            =~= dims_map(s2),
{
    lemma_dims_map_entries(s1);
    lemma_dims_map_entries(s2);
    let m1 = dims_map(s1);
    let m2 = dims_map(s2);
    if dim_diff(m1, m2) =~= Map::<u64, int>::empty() {
        assert forall|u: u64| m1.dom().contains(u) implies m2.dom().contains(u) && m2[u]
            == m1[u] by {
            let i = choose|i: int| 0 <= i < s1.len() && (#[trigger] s1[i]).0 == u;
            assert(m1[u] == s1[i].1 as int);
            assert(!dim_diff(m1, m2).dom().contains(u));
            assert(dim_at(m1, u) - dim_at(m2, u) == 0);
        }
        assert forall|u: u64| m2.dom().contains(u) implies m1.dom().contains(u) by {
            let i = choose|i: int| 0 <= i < s2.len() && (#[trigger] s2[i]).0 == u;
            assert(m2[u] == s2[i].1 as int);
            assert(!dim_diff(m1, m2).dom().contains(u));
            assert(dim_at(m1, u) - dim_at(m2, u) == 0);
        }
        assert(m1 =~= m2);
    }
}

/// The ghost model of a quantity: exact rational magnitude (numerator,
/// positive denominator) and the dimension mapping.
#[verifier::ext_equal]
pub ghost struct QModel {
    pub num: int,
    pub den: int,
    pub dims: Map<u64, int>,
}

/// Model of the product of two quantities.
pub open spec fn m_mul(a: QModel, b: QModel) -> QModel {
    QModel { num: a.num * b.num, den: a.den * b.den, dims: dim_sum(a.dims, b.dims) }
}

/// Model of the quotient of two quantities (divisor magnitude nonzero); the
/// sign factor keeps the denominator positive.
pub open spec fn m_div(a: QModel, b: QModel) -> QModel {
    QModel {
        num: sgn(b.num) * (a.num * b.den),
        den: sgn(b.num) * (a.den * b.num),
        dims: dim_diff(a.dims, b.dims),
    }
}

/// A prefix of a well-formed dimension vector is well-formed.
proof fn lemma_dims_wf_take(s: Seq<(u64, i64)>, i: int)
    requires
        dims_wf(s),
        0 <= i <= s.len(),
    ensures
        dims_wf(s.take(i)),
{
    assert forall|k: int| 0 <= k < i implies (#[trigger] s.take(i)[k]) == s[k] by {}
}

/// Extending a prefix by one entry inserts that entry into the mapping.
proof fn lemma_dims_map_take_step(s: Seq<(u64, i64)>, i: int)
    requires
        0 <= i < s.len(),
    ensures
        dims_map(s.take(i + 1)) == dims_map(s.take(i)).insert(s[i].0, s[i].1 as int),
{
    assert(s.take(i + 1).drop_last() =~= s.take(i));
    assert(s.take(i + 1).last() == s[i]);
}

/// Merges two sorted dimension vectors into the vector of their sum (or, with
/// `neg_b`, their difference), dropping cancelled exponents.
fn dims_combine(a: &Vec<(u64, i64)>, b: &Vec<(u64, i64)>, neg_b: bool) -> (r: Vec<(u64, i64)>)
    requires
        dims_wf(a@),
        dims_wf(b@),
        dims_bounded(a@, EXP_BOUND as int),
        dims_bounded(b@, EXP_BOUND as int),
    ensures
        dims_wf(r@),
        dims_map(r@) == (if neg_b {
            dim_diff(dims_map(a@), dims_map(b@))
        } else {
            dim_sum(dims_map(a@), dims_map(b@))
        }),
        forall|bb: int|
            0 <= bb && #[trigger] dims_bounded(a@, bb) && dims_bounded(b@, bb) ==> dims_bounded(
                r@,
                2 * bb,
            ),
{
    let alen = a.len();
    let blen = b.len();
    let mut r: Vec<(u64, i64)> = Vec::new();
    let mut i: usize = 0;
    let mut j: usize = 0;
    while i < alen || j < blen
        invariant
            alen == a@.len(),
            blen == b@.len(),
            i <= alen,
            j <= blen,
            dims_wf(a@),
            dims_wf(b@),
            dims_bounded(a@, EXP_BOUND as int),
            dims_bounded(b@, EXP_BOUND as int),
            dims_wf(r@),
            dims_map(r@) == (if neg_b {
                dim_diff(dims_map(a@.take(i as int)), dims_map(b@.take(j as int)))
            } else {
                dim_sum(dims_map(a@.take(i as int)), dims_map(b@.take(j as int)))
            }),
            forall|k: int|
                0 <= k < r@.len() && i < alen ==> (#[trigger] r@[k]).0 < a@[i as int].0,
            forall|k: int|
                0 <= k < r@.len() && j < blen ==> (#[trigger] r@[k]).0 < b@[j as int].0,
            forall|k: int| 0 <= k < j && i < alen ==> (#[trigger] b@[k]).0 < a@[i as int].0,
            forall|k: int| 0 <= k < i && j < blen ==> (#[trigger] a@[k]).0 < b@[j as int].0,
        decreases alen - i + blen - j,
    {
        let ghost ai = i as int;
        let ghost aj = j as int;
        let ghost old_r = r@;
        proof {
            lemma_dims_wf_take(a@, ai);
            lemma_dims_wf_take(b@, aj);
            lemma_dims_map_entries(a@.take(ai));
            lemma_dims_map_entries(b@.take(aj));
            lemma_dims_map_entries(old_r);
        }
        if j == blen || (i < alen && a[i].0 < b[j].0) {
            let u = a[i].0;
            let e = a[i].1;
            r.push((u, e));
            i = i + 1;
            proof {
                lemma_dims_map_take_step(a@, ai);
                assert(r@.drop_last() =~= old_r);
                assert(dims_map(r@) == dims_map(old_r).insert(u, e as int));
                assert(!dims_map(b@.take(aj)).dom().contains(u));
                assert(dims_map(r@) =~= (if neg_b {
                    dim_diff(dims_map(a@.take(ai + 1)), dims_map(b@.take(aj)))
                } else {
                    dim_sum(dims_map(a@.take(ai + 1)), dims_map(b@.take(aj)))
                }));
            }
        } else if i == alen || b[j].0 < a[i].0 {
            let u = b[j].0;
            let e = if neg_b {
                -b[j].1
            } else {
                b[j].1
            };
            r.push((u, e));
            j = j + 1;
            proof {
                lemma_dims_map_take_step(b@, aj);
                assert(r@.drop_last() =~= old_r);
                assert(dims_map(r@) == dims_map(old_r).insert(u, e as int));
                assert(!dims_map(a@.take(ai)).dom().contains(u));
                assert(dims_map(r@) =~= (if neg_b {
                    dim_diff(dims_map(a@.take(ai)), dims_map(b@.take(aj + 1)))
                } else {
                    dim_sum(dims_map(a@.take(ai)), dims_map(b@.take(aj + 1)))
                }));
            }
        } else {
            let u = a[i].0;
            let e = if neg_b {
                a[i].1 - b[j].1
            } else {
                a[i].1 + b[j].1
            };
            if e != 0 {
                r.push((u, e));
            }
            i = i + 1;
            j = j + 1;
            proof {
                lemma_dims_map_take_step(a@, ai);
                lemma_dims_map_take_step(b@, aj);
                assert(!dims_map(old_r).dom().contains(u));
                if e != 0 {
                    assert(r@.drop_last() =~= old_r);
                    assert(dims_map(r@) == dims_map(old_r).insert(u, e as int));
                }
                assert(dims_map(r@) =~= (if neg_b {
                    dim_diff(dims_map(a@.take(ai + 1)), dims_map(b@.take(aj + 1)))
                } else {
                    dim_sum(dims_map(a@.take(ai + 1)), dims_map(b@.take(aj + 1)))
                }));
            }
        }
    }
    proof {
        assert(a@.take(alen as int) =~= a@);
        assert(b@.take(blen as int) =~= b@);
        assert forall|bb: int|
            0 <= bb && #[trigger] dims_bounded(a@, bb) && dims_bounded(b@, bb) implies dims_bounded(
            r@,
            2 * bb,
        ) by {
            lemma_dims_map_bounded(a@, bb);
            lemma_dims_map_bounded(b@, bb);
            lemma_dims_map_entries(r@);
            assert forall|k: int| 0 <= k < r@.len() implies -(2 * bb) <= (#[trigger] r@[k]).1
                <= 2 * bb by {
                let u = r@[k].0;
                assert(dims_map(r@)[u] == r@[k].1 as int);
                assert(dims_map(r@).dom().contains(u));
                assert(-bb <= dim_at(dims_map(a@), u) <= bb);
                assert(-bb <= dim_at(dims_map(b@), u) <= bb);
            }
        }
    }
    r
}

/// An immutable dimensioned value: exact rational magnitude `num / den`
/// with `den > 0`, and a canonical sparse dimension vector.
pub struct Quantity {
    pub num: i64,
    pub den: i64,
    pub dims: Vec<(u64, i64)>,
}

impl Quantity {
    pub open spec fn wf(self) -> bool {
        &&& self.den > 0
        &&& dims_wf(self.dims@)
    }

    pub open spec fn model(self) -> QModel {
        QModel { num: self.num as int, den: self.den as int, dims: dims_map(self.dims@) }
    }

    pub open spec fn is_dimensionless(self) -> bool {
        self.dims@.len() == 0
    }

    /// Magnitude components and exponents small enough that any two-step
    /// derivation chain over such quantities stays within 64 bits.
    pub open spec fn bounded(self) -> bool {
        &&& -MAG_BOUND <= self.num <= MAG_BOUND
        &&& 0 < self.den <= MAG_BOUND
        &&& dims_bounded(self.dims@, MAG_BOUND as int)
    }

    /// A pure scalar: the dimension mapping is empty.
    pub fn dimensionless(&self) -> (r: bool)
        ensures
            r == self.is_dimensionless(),
    {
        self.dims.len() == 0
    }

    /// An owned copy with the same magnitude and dimension.
    pub fn duplicate(&self) -> (r: Quantity)
        ensures
            q_eqv(r, *self),
    {
        let mut dims: Vec<(u64, i64)> = Vec::new();
        let n = self.dims.len();
        let mut k: usize = 0;
        while k < n
            invariant
                n == self.dims@.len(),
                k <= n,
                dims@ =~= self.dims@.take(k as int),
            decreases n - k,
        {
            dims.push(self.dims[k]);
            k = k + 1;
        }
        proof {
            assert(self.dims@.take(n as int) =~= self.dims@);
        }
        Quantity { num: self.num, den: self.den, dims }
    }

    /// Multiplication: magnitudes multiply, dimensions add.  Always defined;
    /// the preconditions only keep the products within 64 bits.
    pub fn multiply(&self, other: &Quantity) -> (r: Quantity)
        requires
            self.wf(),
            other.wf(),
            mul_fits(self.num as int, other.num as int),
            mul_fits(self.den as int, other.den as int),
            dims_bounded(self.dims@, EXP_BOUND as int),
            dims_bounded(other.dims@, EXP_BOUND as int),
        ensures
            r.wf(),
            r.model() == m_mul(self.model(), other.model()),
            forall|bb: int|
                0 <= bb && #[trigger] dims_bounded(self.dims@, bb) && dims_bounded(
                    other.dims@,
                    bb,
                ) ==> dims_bounded(r.dims@, 2 * bb),
    {
        let dims = dims_combine(&self.dims, &other.dims, false);
        proof {
            assert(self.den * other.den > 0) by (nonlinear_arith)
                requires
                    self.den > 0,
                    other.den > 0,
            ;
        }
        let r = Quantity { num: self.num * other.num, den: self.den * other.den, dims };
        proof {
            assert(r.model() =~= m_mul(self.model(), other.model()));
        }
        r
    }

    /// Division: magnitudes divide, dimensions subtract.  Undefined (returns
    /// `None`) exactly when the divisor's magnitude is zero; the result's
    /// denominator is kept positive.
    pub fn divide(&self, other: &Quantity) -> (r: Option<Quantity>)
        requires
            self.wf(),
            other.wf(),
            mul_fits(self.num as int, other.den as int),
            mul_fits(self.den as int, other.num as int),
            dims_bounded(self.dims@, EXP_BOUND as int),
            dims_bounded(other.dims@, EXP_BOUND as int),
        ensures
            r is Some <==> other.num != 0,
            r matches Some(q) ==> q.wf() && q.model() == m_div(self.model(), other.model())
                && (forall|bb: int|
                0 <= bb && #[trigger] dims_bounded(self.dims@, bb) && dims_bounded(
                    other.dims@,
                    bb,
                ) ==> dims_bounded(q.dims@, 2 * bb)),
    {
        if other.num == 0 {
            return None;
        }
        let mut num = self.num * other.den;
        let mut den = self.den * other.num;
        if other.num < 0 {
            proof {
                assert(self.den * other.num < 0) by (nonlinear_arith)
                    requires
                        self.den > 0,
                        other.num < 0,
                ;
            }
            num = -num;
            den = -den;
        } else {
            proof {
                assert(self.den * other.num > 0) by (nonlinear_arith)
                    requires
                        self.den > 0,
                        other.num > 0,
                ;
            }
        }
        let dims = dims_combine(&self.dims, &other.dims, true);
        let q = Quantity { num, den, dims };
        proof {
            assert(q.model() =~= m_div(self.model(), other.model()));
        }
        Some(q)
    }
}

/// Two quantities carry the same magnitude and the same dimension vector.
pub open spec fn q_eqv(a: Quantity, b: Quantity) -> bool {
    &&& a.num == b.num
    &&& a.den == b.den
    &&& a.dims@ == b.dims@
}

} // verus!
