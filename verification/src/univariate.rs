//! Polynomials in one variable, by their coefficients, that of the constant term first.
use crate::field_model;
use crate::field_model::Xf;
use vstd::prelude::*;

verus! {

/// The operations on coefficient sequences.
pub struct Univariate;

impl Univariate {
    /// The coefficient of the `k`-th power; zero where there is none.
    pub open spec fn coefficient(p: Seq<Xf>, k: int) -> Xf {
        if 0 <= k < p.len() {
            p[k]
        } else {
            Xf::zero()
        }
    }

    /// The polynomial's value at `x`.
    pub open spec fn value(p: Seq<Xf>, x: Xf) -> Xf
        decreases p.len(),
    {
        if p.len() == 0 {
            Xf::zero()
        } else {
            Xf::add(p[0], Xf::mul(x, Univariate::value(p.drop_first(), x)))
        }
    }

    /// The index of the last coefficient other than zero; `-1` where there is none.
    pub open spec fn degree(p: Seq<Xf>) -> int
        decreases p.len(),
    {
        if p.len() == 0 {
            -1
        } else if p.last() != Xf::zero() {
            p.len() - 1
        } else {
            Univariate::degree(p.drop_last())
        }
    }

    /// All coefficients of powers above the `n`-th are zero.
    pub open spec fn degree_at_most(p: Seq<Xf>, n: int) -> bool {
        forall|k: int| k > n ==> #[trigger] Univariate::coefficient(p, k) == Xf::zero()
    }

    /// The coefficients are the same, but for zeros at the end.
    pub open spec fn same(p: Seq<Xf>, q: Seq<Xf>) -> bool {
        forall|k: int| #[trigger]
            Univariate::coefficient(p, k) == Univariate::coefficient(q, k)
    }

    /// All coefficients are reduced.
    pub open spec fn canonical(p: Seq<Xf>) -> bool {
        forall|k: int| 0 <= k < p.len() ==> (#[trigger] p[k]).canonical()
    }

    /// The leading coefficient is one, at the `n`-th power.
    pub open spec fn monic(p: Seq<Xf>, n: int) -> bool {
        Univariate::degree_at_most(p, n) && Univariate::coefficient(p, n) == Xf::one()
    }

    /// The sum of two polynomials.
    pub open spec fn add(p: Seq<Xf>, q: Seq<Xf>) -> Seq<Xf> {
        Seq::new(
            if p.len() < q.len() {
                q.len()
            } else {
                p.len()
            },
            |k: int| Xf::add(Univariate::coefficient(p, k), Univariate::coefficient(q, k)),
        )
    }

    /// Every coefficient times `c`.
    pub open spec fn scale(c: Xf, p: Seq<Xf>) -> Seq<Xf> {
        Seq::new(p.len(), |k: int| Xf::mul(c, p[k]))
    }

    /// The polynomial times its variable.
    pub open spec fn shift(p: Seq<Xf>) -> Seq<Xf> {
        seq![Xf::zero()] + p
    }

    /// The product of two polynomials.
    pub open spec fn mul(p: Seq<Xf>, q: Seq<Xf>) -> Seq<Xf>
        decreases p.len(),
    {
        if p.len() == 0 {
            Seq::empty()
        } else {
            Univariate::add(
                Univariate::scale(p[0], q),
                Univariate::shift(Univariate::mul(p.drop_first(), q)),
            )
        }
    }

    /// A power of a polynomial.
    pub open spec fn pow(p: Seq<Xf>, e: nat) -> Seq<Xf>
        decreases e,
    {
        if e == 0 {
            seq![Xf::one()]
        } else {
            Univariate::mul(Univariate::pow(p, (e - 1) as nat), p)
        }
    }

    /// The polynomial with `c` times its variable in place of the variable.
    pub open spec fn stretch(p: Seq<Xf>, c: Xf) -> Seq<Xf> {
        Seq::new(p.len(), |k: int| Xf::mul(Xf::pow(c, k as nat), p[k]))
    }

    /// The variable minus `a`.
    pub open spec fn linear(a: Xf) -> Seq<Xf> {
        seq![Xf::sub(Xf::zero(), a), Xf::one()]
    }

    /// The variable to the power of `n`, minus one.
    pub open spec fn power_minus_one(n: nat) -> Seq<Xf> {
        Seq::new(
            n + 1,
            |k: int|
                if k == n {
                    Xf::one()
                } else if k == 0 {
                    Xf::sub(Xf::zero(), Xf::one())
                } else {
                    Xf::zero()
                },
        )
    }
}

/// Values are reduced.
pub proof fn lemma_value_canonical(p: Seq<Xf>, x: Xf)
    ensures
        Univariate::value(p, x).canonical(),
        Xf::reduce(Univariate::value(p, x)) == Univariate::value(p, x),
{
    if p.len() > 0 {
        field_model::lemma_sub_reduced(
            p[0],
            Xf::mul(x, Univariate::value(p.drop_first(), x)),
        );
    }
    field_model::lemma_reduce(Univariate::value(p, x));
}

/// The degree is the least upper bound on the powers with a coefficient other than zero.
pub proof fn lemma_degree(p: Seq<Xf>, n: int)
    requires
        n >= -1,
    ensures
        Univariate::degree_at_most(p, n) <==> Univariate::degree(p) <= n,
    decreases p.len(),
{
    if p.len() > 0 {
        let last = p.len() - 1;
        assert(Univariate::coefficient(p, last) == p.last());
        if p.last() == Xf::zero() {
            let rest = p.drop_last();
            lemma_degree(rest, n);
            assert forall|k: int| #[trigger]
                Univariate::coefficient(p, k) == Univariate::coefficient(rest, k) by {}
            assert(Univariate::degree_at_most(p, n) ==> Univariate::degree_at_most(rest, n)) by {
                if Univariate::degree_at_most(p, n) {
                    assert forall|k: int| k > n implies #[trigger] Univariate::coefficient(rest, k)
                        == Xf::zero() by {
                        assert(Univariate::coefficient(p, k) == Xf::zero());
                    }
                }
            }
        }
    }
}

/// The value of a sum is the sum of the values.
pub proof fn lemma_value_add(p: Seq<Xf>, q: Seq<Xf>, x: Xf)
    ensures
        Univariate::value(Univariate::add(p, q), x) == Xf::add(
            Univariate::value(p, x),
            Univariate::value(q, x),
        ),
    decreases p.len() + q.len(),
{
    let sum = Univariate::add(p, q);
    if p.len() == 0 && q.len() == 0 {
        field_model::lemma_add_zero(Xf::zero());
        field_model::lemma_reduce(Xf::zero());
    } else {
        let p_rest = if p.len() == 0 {
            p
        } else {
            p.drop_first()
        };
        let q_rest = if q.len() == 0 {
            q
        } else {
            q.drop_first()
        };
        let a = Univariate::coefficient(p, 0);
        let b = Univariate::coefficient(q, 0);
        lemma_value_add(p_rest, q_rest, x);
        assert(sum.drop_first() =~= Univariate::add(p_rest, q_rest));
        lemma_value_unfolds(p, x);
        lemma_value_unfolds(q, x);
        let v = Univariate::value(p_rest, x);
        let w = Univariate::value(q_rest, x);
        field_model::lemma_mul_distributes(x, v, w);
        field_model::lemma_add_exchanges(a, Xf::mul(x, v), b, Xf::mul(x, w));
    }
}

/// One step of Horner's scheme, which holds of the empty polynomial too.
proof fn lemma_value_unfolds(p: Seq<Xf>, x: Xf)
    ensures
        ({
            let rest = if p.len() == 0 {
                p
            } else {
                p.drop_first()
            };
            Univariate::value(p, x) == Xf::add(
                Univariate::coefficient(p, 0),
                Xf::mul(x, Univariate::value(rest, x)),
            )
        }),
{
    if p.len() == 0 {
        field_model::lemma_mul_basics(x);
        field_model::lemma_add_zero(Xf::zero());
        field_model::lemma_reduce(Xf::zero());
    }
}

/// The value of a scaled polynomial is the scaled value.
pub proof fn lemma_value_scale(c: Xf, p: Seq<Xf>, x: Xf)
    ensures
        Univariate::value(Univariate::scale(c, p), x) == Xf::mul(c, Univariate::value(p, x)),
    decreases p.len(),
{
    if p.len() == 0 {
        field_model::lemma_mul_basics(c);
    } else {
        let rest = p.drop_first();
        lemma_value_scale(c, rest, x);
        assert(Univariate::scale(c, p).drop_first() =~= Univariate::scale(c, rest));
        let v = Univariate::value(rest, x);
        field_model::lemma_mul_distributes(c, p[0], Xf::mul(x, v));
        field_model::lemma_mul_associates(x, c, v);
        field_model::lemma_mul_commutes(x, c);
        field_model::lemma_mul_associates(c, x, v);
    }
}

/// The value of a shifted polynomial is the value times `x`.
pub proof fn lemma_value_shift(p: Seq<Xf>, x: Xf)
    ensures
        Univariate::value(Univariate::shift(p), x) == Xf::mul(x, Univariate::value(p, x)),
{
    let v = Univariate::value(p, x);
    assert(Univariate::shift(p).drop_first() =~= p);
    field_model::lemma_add_zero(Xf::mul(x, v));
    field_model::lemma_reduce(field_model::zmul(x, v));
}

/// The value of a product is the product of the values.
pub proof fn lemma_value_mul(p: Seq<Xf>, q: Seq<Xf>, x: Xf)
    ensures
        Univariate::value(Univariate::mul(p, q), x) == Xf::mul(
            Univariate::value(p, x),
            Univariate::value(q, x),
        ),
    decreases p.len(),
{
    let w = Univariate::value(q, x);
    if p.len() == 0 {
        field_model::lemma_mul_basics(w);
    } else {
        let rest = p.drop_first();
        let v = Univariate::value(rest, x);
        lemma_value_mul(rest, q, x);
        lemma_value_add(
            Univariate::scale(p[0], q),
            Univariate::shift(Univariate::mul(rest, q)),
            x,
        );
        lemma_value_scale(p[0], q, x);
        lemma_value_shift(Univariate::mul(rest, q), x);
        // p[0] * w + x * (v * w) == (p[0] + x * v) * w
        field_model::lemma_mul_associates(x, v, w);
        field_model::lemma_mul_commutes(p[0], w);
        field_model::lemma_mul_commutes(Xf::mul(x, v), w);
        field_model::lemma_mul_distributes(w, p[0], Xf::mul(x, v));
        field_model::lemma_mul_commutes(Univariate::value(p, x), w);
    }
}

/// The value of a power is the power of the value.
pub proof fn lemma_value_pow(p: Seq<Xf>, e: nat, x: Xf)
    ensures
        Univariate::value(Univariate::pow(p, e), x) == Xf::pow(Univariate::value(p, x), e),
    decreases e,
{
    if e == 0 {
        lemma_value_constant(Xf::one(), x);
        field_model::lemma_reduce(Xf::one());
    } else {
        lemma_value_pow(p, (e - 1) as nat, x);
        lemma_value_mul(Univariate::pow(p, (e - 1) as nat), p, x);
    }
}

/// The value of a constant polynomial is the constant.
pub proof fn lemma_value_constant(c: Xf, x: Xf)
    ensures
        Univariate::value(seq![c], x) == Xf::reduce(c),
{
    assert(seq![c].drop_first() =~= Seq::<Xf>::empty());
    assert(Univariate::value(Seq::<Xf>::empty(), x) == Xf::zero());
    field_model::lemma_mul_basics(x);
    field_model::lemma_add_zero(c);
}

/// The degree of a product is at most the sum of the degrees; a product with zero is zero.
pub proof fn lemma_degree_mul(p: Seq<Xf>, q: Seq<Xf>, m: int, n: int)
    requires
        m >= -1,
        n >= 0,
        Univariate::degree_at_most(p, m),
        Univariate::degree_at_most(q, n),
    ensures
        Univariate::degree_at_most(
            Univariate::mul(p, q),
            if m == -1 {
                -1
            } else {
                m + n
            },
        ),
    decreases p.len(),
{
    if p.len() > 0 {
        let rest = p.drop_first();
        let product = Univariate::mul(rest, q);
        let bound = if m == -1 {
            -1
        } else {
            m + n
        };
        let fewer = if m == -1 {
            -1
        } else {
            m - 1
        };
        lemma_rest_degree(p, m);
        lemma_degree_mul(rest, q, fewer, n);
        assert forall|k: int| k > bound implies #[trigger] Univariate::coefficient(
            Univariate::mul(p, q),
            k,
        ) == Xf::zero() by {
            lemma_product_coefficient(p, q, k);
            assert(Univariate::coefficient(product, k - 1) == Xf::zero());
            if m == -1 {
                assert(Univariate::coefficient(p, 0) == Xf::zero());
                field_model::lemma_mul_basics(Univariate::coefficient(q, k));
            } else {
                assert(Univariate::coefficient(q, k) == Xf::zero());
                field_model::lemma_mul_basics(p[0]);
            }
            field_model::lemma_add_zero(Xf::zero());
            field_model::lemma_reduce(Xf::zero());
        }
    }
}

/// Without its constant term and divided by the variable, a polynomial has one degree less.
proof fn lemma_rest_degree(p: Seq<Xf>, m: int)
    requires
        p.len() > 0,
        m >= -1,
        Univariate::degree_at_most(p, m),
    ensures
        Univariate::degree_at_most(
            p.drop_first(),
            if m == -1 {
                -1
            } else {
                m - 1
            },
        ),
{
    let rest = p.drop_first();
    assert forall|k: int|
        k > (if m == -1 {
            -1
        } else {
            m - 1
        }) implies #[trigger] Univariate::coefficient(rest, k) == Xf::zero() by {
        if 0 <= k < rest.len() {
            assert(Univariate::coefficient(p, k + 1) == Xf::zero());
        }
    }
}

/// A coefficient of a product, by the first factor's constant term and the rest.
pub proof fn lemma_product_coefficient(p: Seq<Xf>, q: Seq<Xf>, k: int)
    requires
        p.len() > 0,
    ensures
        Univariate::coefficient(Univariate::mul(p, q), k) == Xf::add(
            Xf::mul(p[0], Univariate::coefficient(q, k)),
            Univariate::coefficient(Univariate::mul(p.drop_first(), q), k - 1),
        ),
{
    let shifted = Univariate::shift(Univariate::mul(p.drop_first(), q));
    let scaled = Univariate::scale(p[0], q);
    field_model::lemma_mul_basics(p[0]);
    field_model::lemma_add_zero(Xf::zero());
    field_model::lemma_reduce(Xf::zero());
    assert(Univariate::coefficient(scaled, k) == Xf::mul(p[0], Univariate::coefficient(q, k)));
    assert(Univariate::coefficient(shifted, k) == Univariate::coefficient(
        Univariate::mul(p.drop_first(), q),
        k - 1,
    ));
}

/// The leading coefficient of a product is the product of the leading coefficients.
pub proof fn lemma_leading_mul(p: Seq<Xf>, q: Seq<Xf>, m: int, n: int)
    requires
        m >= 0,
        n >= 0,
        Univariate::degree_at_most(p, m),
        Univariate::degree_at_most(q, n),
    ensures
        Univariate::coefficient(Univariate::mul(p, q), m + n) == Xf::mul(
            Univariate::coefficient(p, m),
            Univariate::coefficient(q, n),
        ),
    decreases p.len(),
{
    let lead = Univariate::coefficient(q, n);
    field_model::lemma_mul_basics(lead);
    if p.len() > 0 {
        let rest = p.drop_first();
        lemma_rest_degree(p, m);
        lemma_product_coefficient(p, q, m + n);
        if m == 0 {
            lemma_degree_mul(rest, q, -1, n);
            assert(Univariate::coefficient(Univariate::mul(rest, q), n - 1) == Xf::zero());
            field_model::lemma_add_zero(Xf::mul(p[0], lead));
            field_model::lemma_reduce(field_model::zmul(p[0], lead));
        } else {
            lemma_leading_mul(rest, q, m - 1, n);
            assert(Univariate::coefficient(q, m + n) == Xf::zero());
            field_model::lemma_mul_basics(p[0]);
            let c = Univariate::coefficient(rest, m - 1);
            assert(c == Univariate::coefficient(p, m));
            field_model::lemma_add_zero(Xf::mul(c, lead));
            field_model::lemma_reduce(field_model::zmul(c, lead));
        }
    }
}

/// Dividing by a monic polynomial takes its degree away.
pub proof fn lemma_quotient_degree(
    quotient: Seq<Xf>,
    divisor: Seq<Xf>,
    dividend: Seq<Xf>,
    divisor_degree: int,
    dividend_degree: int,
)
    requires
        Univariate::canonical(quotient),
        divisor_degree >= 0,
        Univariate::monic(divisor, divisor_degree),
        Univariate::same(Univariate::mul(quotient, divisor), dividend),
        Univariate::degree_at_most(dividend, dividend_degree),
    ensures
        Univariate::degree(quotient) <= dividend_degree - divisor_degree || Univariate::degree(
            quotient,
        ) == -1,
{
    let m = Univariate::degree(quotient);
    if m >= 0 {
        lemma_degree(quotient, m);
        lemma_leading_mul(quotient, divisor, m, divisor_degree);
        lemma_degree_nonzero(quotient);
        let lead = Univariate::coefficient(quotient, m);
        field_model::lemma_mul_basics(lead);
        field_model::lemma_reduce(lead);
        if m + divisor_degree > dividend_degree {
            assert(Univariate::coefficient(dividend, m + divisor_degree) == Xf::zero());
        }
    } else {
        lemma_degree_range(quotient);
    }
}

/// The coefficient at the degree is not zero.
proof fn lemma_degree_nonzero(p: Seq<Xf>)
    requires
        Univariate::degree(p) >= 0,
    ensures
        Univariate::degree(p) < p.len(),
        p[Univariate::degree(p)] != Xf::zero(),
    decreases p.len(),
{
    if p.last() == Xf::zero() {
        lemma_degree_nonzero(p.drop_last());
    }
}

/// A degree is at least `-1`.
pub proof fn lemma_degree_range(p: Seq<Xf>)
    ensures
        Univariate::degree(p) >= -1,
    decreases p.len(),
{
    if p.len() > 0 && p.last() == Xf::zero() {
        lemma_degree_range(p.drop_last());
    }
}

/// The variable minus `a` is monic, and vanishes at `a`.
pub proof fn lemma_linear(a: Xf, x: Xf)
    ensures
        Univariate::monic(Univariate::linear(a), 1),
        Univariate::value(Univariate::linear(a), x) == Xf::sub(x, a),
{
    let p = Univariate::linear(a);
    assert(p.drop_first() =~= seq![Xf::one()]);
    lemma_value_constant(Xf::one(), x);
    field_model::lemma_reduce(Xf::one());
    field_model::lemma_mul_basics(x);
    // -a + x
    let minus_a = Xf { c0: 0 - a.c0, c1: 0 - a.c1, c2: 0 - a.c2 };
    field_model::lemma_add_reduced(minus_a, Xf::reduce(x));
    field_model::lemma_add_reduced(minus_a, x);
}

/// The variable to the power of `n`, minus one, is monic, and vanishes where the power is one.
pub proof fn lemma_power_minus_one(n: nat, x: Xf)
    requires
        n > 0,
    ensures
        Univariate::monic(Univariate::power_minus_one(n), n as int),
        Univariate::value(Univariate::power_minus_one(n), x) == Xf::sub(
            Xf::pow(x, n),
            Xf::one(),
        ),
{
    let p = Univariate::power_minus_one(n);
    let rest = p.drop_first();
    assert(rest =~= monomial((n - 1) as nat));
    lemma_value_monomial((n - 1) as nat, x);
    field_model::lemma_pow_adds(x, 1, (n - 1) as nat);
    assert(Xf::pow(x, 1) == Xf::reduce(x)) by {
        assert(Xf::pow(x, 0) == Xf::one());
        field_model::lemma_mul_basics(x);
    }
    field_model::lemma_mul_reduced(x, Xf::pow(x, (n - 1) as nat));
    assert(1 + (n - 1) as nat == n);
    let minus_one = Xf { c0: 0 - 1, c1: 0, c2: 0 };
    field_model::lemma_add_reduced(minus_one, Xf::pow(x, n));
}

/// The variable to the power of `n`.
pub open spec fn monomial(n: nat) -> Seq<Xf> {
    Seq::new(
        n + 1,
        |k: int|
            if k == n {
                Xf::one()
            } else {
                Xf::zero()
            },
    )
}

proof fn lemma_value_monomial(n: nat, x: Xf)
    ensures
        Univariate::value(monomial(n), x) == Xf::pow(x, n),
    decreases n,
{
    if n == 0 {
        assert(monomial(0) =~= seq![Xf::one()]);
        lemma_value_constant(Xf::one(), x);
        field_model::lemma_reduce(Xf::one());
    } else {
        lemma_value_monomial((n - 1) as nat, x);
        assert(monomial(n) =~= Univariate::shift(monomial((n - 1) as nat)));
        lemma_value_shift(monomial((n - 1) as nat), x);
        field_model::lemma_mul_commutes(x, Xf::pow(x, (n - 1) as nat));
    }
}

/// The value of a stretched polynomial is the value further out.
pub proof fn lemma_value_stretch(p: Seq<Xf>, c: Xf, x: Xf)
    ensures
        Univariate::value(Univariate::stretch(p, c), x) == Univariate::value(p, Xf::mul(c, x)),
    decreases p.len(),
{
    if p.len() > 0 {
        let rest = p.drop_first();
        let stretched = Univariate::stretch(p, c);
        let inner = Univariate::stretch(rest, c);
        let v = Univariate::value(inner, x);
        lemma_value_stretch(rest, c, x);
        assert forall|k: int| 0 <= k < rest.len() implies #[trigger] stretched.drop_first()[k]
            == Univariate::scale(c, inner)[k] by {
            let power = Xf::pow(c, k as nat);
            assert(Xf::pow(c, (k + 1) as nat) == Xf::mul(power, c));
            field_model::lemma_mul_commutes(power, c);
            field_model::lemma_mul_associates(c, power, rest[k]);
        }
        assert(stretched.drop_first() =~= Univariate::scale(c, inner));
        lemma_value_scale(c, inner, x);
        assert(Xf::pow(c, 0) == Xf::one());
        field_model::lemma_mul_basics(p[0]);
        field_model::lemma_add_reduced(p[0], Xf::mul(x, Xf::mul(c, v)));
        field_model::lemma_mul_associates(x, c, v);
        field_model::lemma_mul_commutes(x, c);
    }
}

/// Stretching does not raise the degree.
pub proof fn lemma_stretch_degree(p: Seq<Xf>, c: Xf, n: int)
    requires
        Univariate::degree_at_most(p, n),
    ensures
        Univariate::degree_at_most(Univariate::stretch(p, c), n),
{
    assert forall|k: int| k > n implies #[trigger] Univariate::coefficient(
        Univariate::stretch(p, c),
        k,
    ) == Xf::zero() by {
        assert(Univariate::coefficient(p, k) == Xf::zero());
        field_model::lemma_mul_basics(Xf::pow(c, k as nat));
    }
}

/// Zeros at the end do not change the value.
pub proof fn lemma_value_same(p: Seq<Xf>, q: Seq<Xf>, x: Xf)
    requires
        Univariate::same(p, q),
    ensures
        Univariate::value(p, x) == Univariate::value(q, x),
    decreases p.len() + q.len(),
{
    if p.len() > 0 || q.len() > 0 {
        let p_rest = if p.len() == 0 {
            p
        } else {
            p.drop_first()
        };
        let q_rest = if q.len() == 0 {
            q
        } else {
            q.drop_first()
        };
        assert forall|k: int| #[trigger]
            Univariate::coefficient(p_rest, k) == Univariate::coefficient(q_rest, k) by {
            if k >= 0 {
                assert(Univariate::coefficient(p, k + 1) == Univariate::coefficient(q, k + 1));
            }
        }
        assert(Univariate::coefficient(p, 0) == Univariate::coefficient(q, 0));
        lemma_value_same(p_rest, q_rest, x);
        lemma_value_unfolds(p, x);
        lemma_value_unfolds(q, x);
    }
}

} // verus!
