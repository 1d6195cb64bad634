//! Polynomials that are determined by their values, and those that are multiples of others.
use crate::field_model;
use crate::field_model::Xf;
use crate::prime;
use crate::table_collection;
use crate::univariate;
use crate::univariate::Univariate;
use vstd::prelude::*;

verus! {

/// Base elements, no two of them the same.
pub open spec fn separated(points: Seq<Xf>) -> bool {
    &&& forall|i: int|
        0 <= i < points.len() ==> (#[trigger] points[i]).is_base() && points[i].canonical()
    &&& forall|i: int, j: int|
        0 <= i < j < points.len() ==> #[trigger] points[i] != #[trigger] points[j]
}

/// The polynomial is zero at every point.
pub open spec fn vanishes(p: Seq<Xf>, points: Seq<Xf>) -> bool {
    forall|i: int|
        0 <= i < points.len() ==> Univariate::value(p, #[trigger] points[i]) == Xf::zero()
}

/// What is subtracted from one summand and present in the other cancels.
proof fn lemma_cancels(x: Xf, y: Xf, l: Xf)
    ensures
        Xf::add(Xf::add(x, y), Xf::sub(l, x)) == Xf::add(y, l),
{
    let difference = Xf { c0: l.c0 - x.c0, c1: l.c1 - x.c1, c2: l.c2 - x.c2 };
    field_model::lemma_add_reduced(field_model::zadd(x, y), Xf::sub(l, x));
    field_model::lemma_add_reduced(field_model::zadd(x, y), difference);
    assert(field_model::zadd(field_model::zadd(x, y), difference) == field_model::zadd(y, l));
}

/// A coefficient of a sum is the sum of the coefficients.
proof fn lemma_sum_coefficient(p: Seq<Xf>, q: Seq<Xf>, k: int)
    ensures
        Univariate::coefficient(Univariate::add(p, q), k) == Xf::add(
            Univariate::coefficient(p, k),
            Univariate::coefficient(q, k),
        ),
{
    field_model::lemma_add_zero(Xf::zero());
    field_model::lemma_reduce(Xf::zero());
}

/// Division with remainder by a monic polynomial of degree `m`.
pub proof fn lemma_division(p: Seq<Xf>, divisor: Seq<Xf>, m: int) -> (r: (Seq<Xf>, Seq<Xf>))
    requires
        m >= 1,
        Univariate::canonical(p),
        Univariate::monic(divisor, m),
    ensures
        Univariate::canonical(r.0),
        Univariate::canonical(r.1),
        r.1.len() <= m,
        Univariate::same(p, Univariate::add(Univariate::mul(r.0, divisor), r.1)),
    decreases p.len(),
{
    if p.len() == 0 {
        (Seq::empty(), Seq::empty())
    } else {
        let rest = p.drop_first();
        assert(Univariate::canonical(rest)) by {
            assert forall|k: int| 0 <= k < rest.len() implies (#[trigger] rest[k]).canonical() by {
                assert(rest[k] == p[k + 1]);
            }
        }
        let (inner, inner_remainder) = lemma_division(rest, divisor, m);
        let lead = Univariate::coefficient(inner_remainder, m - 1);
        let quotient = seq![lead] + inner;
        let lifted = seq![p[0]] + inner_remainder;
        let remainder = Seq::new(
            m as nat,
            |k: int|
                Xf::sub(
                    Univariate::coefficient(lifted, k),
                    Xf::mul(lead, Univariate::coefficient(divisor, k)),
                ),
        );
        assert forall|k: int| 0 <= k < remainder.len() implies (
        #[trigger] remainder[k]).canonical() by {
            field_model::lemma_sub_reduced(
                Univariate::coefficient(lifted, k),
                Xf::mul(lead, Univariate::coefficient(divisor, k)),
            );
        }
        let product = Univariate::mul(quotient, divisor);
        let inner_product = Univariate::mul(inner, divisor);
        assert(quotient.drop_first() =~= inner);
        assert forall|k: int| #[trigger]
            Univariate::coefficient(p, k) == Univariate::coefficient(
                Univariate::add(product, remainder),
                k,
            ) by {
            let below = Univariate::coefficient(inner_product, k - 1);
            let d = Univariate::coefficient(divisor, k);
            lemma_sum_coefficient(product, remainder, k);
            univariate::lemma_product_coefficient(quotient, divisor, k);
            lemma_sum_coefficient(inner_product, inner_remainder, k - 1);
            assert(Univariate::coefficient(rest, k - 1) == Univariate::coefficient(
                Univariate::add(inner_product, inner_remainder),
                k - 1,
            ));
            field_model::lemma_add_zero(below);
            field_model::lemma_reduce(below);
            field_model::lemma_mul_basics(lead);
            field_model::lemma_reduce(lead);
            if k < 0 {
                field_model::lemma_add_zero(Xf::zero());
                field_model::lemma_reduce(Xf::zero());
                lemma_outside(product, remainder, k);
            } else if k < m {
                lemma_cancels(Xf::mul(lead, d), below, Univariate::coefficient(lifted, k));
                if k == 0 {
                    field_model::lemma_add_zero(p[0]);
                    field_model::lemma_reduce(p[0]);
                } else {
                    assert(Univariate::coefficient(lifted, k) == Univariate::coefficient(
                        inner_remainder,
                        k - 1,
                    ));
                }
            } else if k == m {
                field_model::lemma_sub_reduced(lead, below);
                field_model::lemma_add_zero(Xf::add(lead, below));
            } else {
                assert(d == Xf::zero());
                field_model::lemma_add_zero(Xf::reduce(below));
            }
        }
        (quotient, remainder)
    }
}

/// Below the constant term there is nothing.
proof fn lemma_outside(p: Seq<Xf>, q: Seq<Xf>, k: int)
    requires
        k < 0,
    ensures
        Univariate::coefficient(Univariate::add(p, q), k) == Xf::zero(),
{
}

/// The coefficients of a product are reduced.
pub proof fn lemma_product_canonical(p: Seq<Xf>, q: Seq<Xf>)
    ensures
        Univariate::canonical(Univariate::mul(p, q)),
{
    let product = Univariate::mul(p, q);
    assert forall|k: int| 0 <= k < product.len() implies (#[trigger] product[k]).canonical() by {
        let a = Univariate::scale(p[0], q);
        let b = Univariate::shift(Univariate::mul(p.drop_first(), q));
        field_model::lemma_sub_reduced(
            Univariate::coefficient(a, k),
            Univariate::coefficient(b, k),
        );
    }
}

/// A polynomial that differs from a product only by a remainder without coefficients other than zero
/// is that product.
proof fn lemma_without_remainder(p: Seq<Xf>, product: Seq<Xf>, remainder: Seq<Xf>)
    requires
        Univariate::canonical(product),
        Univariate::same(p, Univariate::add(product, remainder)),
        Univariate::degree_at_most(remainder, -1),
    ensures
        Univariate::same(product, p),
{
    assert forall|k: int| #[trigger]
        Univariate::coefficient(product, k) == Univariate::coefficient(p, k) by {
        let c = Univariate::coefficient(product, k);
        assert(Univariate::coefficient(p, k) == Univariate::coefficient(
            Univariate::add(product, remainder),
            k,
        ));
        lemma_sum_coefficient(product, remainder, k);
        if k >= 0 {
            assert(Univariate::coefficient(remainder, k) == Xf::zero());
            field_model::lemma_add_zero(c);
            field_model::lemma_reduce(c);
        } else {
            lemma_outside(product, remainder, k);
        }
    }
}

/// At a root of both the dividend and the divisor, the remainder is zero too.
proof fn lemma_remainder_vanishes(
    p: Seq<Xf>,
    quotient: Seq<Xf>,
    divisor: Seq<Xf>,
    remainder: Seq<Xf>,
    x: Xf,
)
    requires
        Univariate::same(p, Univariate::add(Univariate::mul(quotient, divisor), remainder)),
        Univariate::value(p, x) == Xf::zero(),
        Univariate::value(divisor, x) == Xf::zero(),
    ensures
        Univariate::value(remainder, x) == Xf::zero(),
{
    let product = Univariate::mul(quotient, divisor);
    univariate::lemma_value_same(p, Univariate::add(product, remainder), x);
    univariate::lemma_value_add(product, remainder, x);
    univariate::lemma_value_mul(quotient, divisor, x);
    field_model::lemma_mul_basics(Univariate::value(quotient, x));
    field_model::lemma_add_zero(Univariate::value(remainder, x));
    univariate::lemma_value_canonical(remainder, x);
}

/// Two base elements that differ have a base element other than zero as their difference.
pub proof fn lemma_base_difference(a: Xf, b: Xf)
    requires
        a.canonical(),
        b.canonical(),
        a.is_base(),
        b.is_base(),
    ensures
        Xf::sub(a, b).canonical(),
        Xf::sub(a, b).is_base(),
        Xf::sub(a, b) == Xf::zero() <==> a == b,
{
    field_model::lemma_sub_reduced(a, b);
    field_model::lemma_difference_zero(a, b);
}

/// A polynomial of a degree below the number of its roots is zero.
pub proof fn law_too_many_roots(p: Seq<Xf>, points: Seq<Xf>)
    requires
        Univariate::canonical(p),
        Univariate::degree_at_most(p, points.len() - 1),
        separated(points),
        vanishes(p, points),
    ensures
        Univariate::degree_at_most(p, -1),
    decreases points.len(),
{
    if points.len() > 0 {
        let n = points.len() as int;
        let a = points.last();
        assert(a == points[n - 1]);
        let divisor = Univariate::linear(a);
        univariate::lemma_linear(a, a);
        field_model::lemma_difference_zero(a, a);
        let (quotient, remainder) = lemma_division(p, divisor, 1);
        let product = Univariate::mul(quotient, divisor);
        lemma_remainder_vanishes(p, quotient, divisor, remainder, a);
        assert(Univariate::degree_at_most(remainder, -1)) by {
            if remainder.len() == 1 {
                assert(remainder =~= seq![remainder[0]]);
                univariate::lemma_value_constant(remainder[0], a);
                field_model::lemma_reduce(remainder[0]);
            }
        }
        lemma_product_canonical(quotient, divisor);
        lemma_without_remainder(p, product, remainder);
        univariate::lemma_quotient_degree(quotient, divisor, p, 1, n - 1);
        univariate::lemma_degree(quotient, n - 2);
        let others = points.drop_last();
        assert(separated(others)) by {
            assert forall|i: int| 0 <= i < others.len() implies (#[trigger] others[i]).is_base()
                && others[i].canonical() by {
                assert(others[i] == points[i]);
            }
            assert forall|i: int, j: int| 0 <= i < j < others.len() implies #[trigger] others[i]
                != #[trigger] others[j] by {
                assert(points[i] != points[j]);
            }
        }
        assert forall|i: int| 0 <= i < others.len() implies Univariate::value(
            quotient,
            #[trigger] others[i],
        ) == Xf::zero() by {
            let b = others[i];
            assert(b == points[i]);
            assert(points[i] != points[n - 1]);
            univariate::lemma_value_same(product, p, b);
            univariate::lemma_value_mul(quotient, divisor, b);
            univariate::lemma_linear(a, b);
            lemma_base_difference(b, a);
            univariate::lemma_value_canonical(quotient, b);
            prime::lemma_no_zero_divisor(Univariate::value(quotient, b), Xf::sub(b, a));
        }
        law_too_many_roots(quotient, others);
        univariate::lemma_degree_mul(quotient, divisor, -1, 1);
        assert forall|k: int| k > -1 implies #[trigger] Univariate::coefficient(p, k)
            == Xf::zero() by {
            assert(Univariate::coefficient(product, k) == Univariate::coefficient(p, k));
        }
    }
}

/// A polynomial that vanishes at all roots of a monic polynomial, which has as many roots as its
/// degree, is a multiple of it. The other factor is handed out.
pub proof fn law_common_roots_divide(
    dividend: Seq<Xf>,
    divisor: Seq<Xf>,
    roots: Seq<Xf>,
) -> (quotient: Seq<Xf>)
    requires
        roots.len() >= 1,
        Univariate::canonical(dividend),
        Univariate::monic(divisor, roots.len() as int),
        separated(roots),
        vanishes(divisor, roots),
        vanishes(dividend, roots),
    ensures
        Univariate::canonical(quotient),
        Univariate::same(Univariate::mul(quotient, divisor), dividend),
{
    let m = roots.len() as int;
    let (quotient, remainder) = lemma_division(dividend, divisor, m);
    assert forall|i: int| 0 <= i < roots.len() implies Univariate::value(
        remainder,
        #[trigger] roots[i],
    ) == Xf::zero() by {
        lemma_remainder_vanishes(dividend, quotient, divisor, remainder, roots[i]);
    }
    law_too_many_roots(remainder, roots);
    lemma_product_canonical(quotient, divisor);
    lemma_without_remainder(dividend, Univariate::mul(quotient, divisor), remainder);
    quotient
}

/// Minus one, times an element, cancels the element.
proof fn lemma_minus_one(v: Xf)
    ensures
        Xf::add(v, Xf::mul(Xf::sub(Xf::zero(), Xf::one()), v)) == Xf::zero(),
{
    let minus_one = Xf::sub(Xf::zero(), Xf::one());
    field_model::lemma_mul_distributes(v, Xf::one(), minus_one);
    field_model::lemma_mul_basics(v);
    field_model::lemma_mul_commutes(v, minus_one);
    assert(Xf::add(Xf::one(), minus_one) == Xf::zero());
    field_model::lemma_add_reduced(v, Xf::mul(minus_one, v));
}

/// Where an element plus minus one times another is zero, the two are the same.
proof fn lemma_equal_by_difference(a: Xf, b: Xf)
    requires
        a.canonical(),
        b.canonical(),
        Xf::add(a, Xf::mul(Xf::sub(Xf::zero(), Xf::one()), b)) == Xf::zero(),
    ensures
        a == b,
{
    let minus_b = Xf::mul(Xf::sub(Xf::zero(), Xf::one()), b);
    // b == (a - b) + b == a + (b - b) == a
    lemma_minus_one(b);
    field_model::lemma_add_exchanges(a, minus_b, Xf::zero(), b);
    field_model::lemma_add_zero(b);
    field_model::lemma_add_zero(a);
    field_model::lemma_reduce(a);
    field_model::lemma_reduce(b);
    assert(Xf::add(minus_b, b) == Xf::add(b, minus_b));
}

/// As many values as coefficients determine a polynomial: where two polynomials of degrees below the
/// number of points have the same values there, they have the same coefficients.
pub proof fn law_values_determine_coefficients(p: Seq<Xf>, q: Seq<Xf>, points: Seq<Xf>)
    requires
        Univariate::canonical(p),
        Univariate::canonical(q),
        Univariate::degree_at_most(p, points.len() - 1),
        Univariate::degree_at_most(q, points.len() - 1),
        separated(points),
        forall|i: int|
            0 <= i < points.len() ==> Univariate::value(p, #[trigger] points[i])
                == Univariate::value(q, points[i]),
    ensures
        Univariate::same(p, q),
{
    let minus_one = Xf::sub(Xf::zero(), Xf::one());
    let minus_q = Univariate::scale(minus_one, q);
    let difference = Univariate::add(p, minus_q);
    assert forall|k: int| 0 <= k < difference.len() implies (
    #[trigger] difference[k]).canonical() by {
        field_model::lemma_sub_reduced(
            Univariate::coefficient(p, k),
            Univariate::coefficient(minus_q, k),
        );
    }
    field_model::lemma_mul_basics(minus_one);
    assert forall|k: int| #[trigger]
        Univariate::coefficient(difference, k) == Xf::add(
            Univariate::coefficient(p, k),
            Xf::mul(minus_one, Univariate::coefficient(q, k)),
        ) by {
        lemma_sum_coefficient(p, minus_q, k);
    }
    assert forall|k: int| k > points.len() - 1 implies #[trigger] Univariate::coefficient(
        difference,
        k,
    ) == Xf::zero() by {
        assert(Univariate::coefficient(p, k) == Xf::zero());
        assert(Univariate::coefficient(q, k) == Xf::zero());
        field_model::lemma_add_zero(Xf::zero());
        field_model::lemma_reduce(Xf::zero());
    }
    assert forall|i: int| 0 <= i < points.len() implies Univariate::value(
        difference,
        #[trigger] points[i],
    ) == Xf::zero() by {
        univariate::lemma_value_add(p, minus_q, points[i]);
        univariate::lemma_value_scale(minus_one, q, points[i]);
        lemma_minus_one(Univariate::value(p, points[i]));
    }
    law_too_many_roots(difference, points);
    assert forall|k: int| #[trigger]
        Univariate::coefficient(p, k) == Univariate::coefficient(q, k) by {
        if k >= 0 {
            assert(Univariate::coefficient(difference, k) == Xf::zero());
            lemma_equal_by_difference(
                Univariate::coefficient(p, k),
                Univariate::coefficient(q, k),
            );
        }
    }
}

/// The polynomial, by its reduced coefficients, has the given values at the given points.
pub open spec fn passes_through(p: Seq<Xf>, points: Seq<Xf>, values: Seq<Xf>) -> bool {
    &&& Univariate::canonical(p)
    &&& forall|i: int|
        0 <= i < points.len() ==> Univariate::value(p, #[trigger] points[i]) == values[i]
}

/// A base element that is none of the points.
spec fn avoids(b: Xf, points: Seq<Xf>) -> bool {
    &&& b.is_base()
    &&& b.canonical()
    &&& forall|i: int| 0 <= i < points.len() ==> b != #[trigger] points[i]
}

/// Fewer separated points are separated.
proof fn lemma_fewer_separated(points: Seq<Xf>)
    requires
        points.len() > 0,
        separated(points),
    ensures
        separated(points.drop_last()),
        avoids(points.last(), points.drop_last()),
{
    let others = points.drop_last();
    assert(points.last() == points[points.len() - 1]);
    assert forall|i: int| 0 <= i < others.len() implies (#[trigger] others[i]).is_base()
        && others[i].canonical() && points.last() != others[i] by {
        assert(others[i] == points[i]);
        assert(points[i] != points[points.len() - 1]);
    }
    assert forall|i: int, j: int| 0 <= i < j < others.len() implies #[trigger] others[i]
        != #[trigger] others[j] by {
        assert(points[i] != points[j]);
    }
}

/// The monic polynomial that vanishes at the points, and at no other base element.
proof fn lemma_vanishing_polynomial(points: Seq<Xf>) -> (z: Seq<Xf>)
    requires
        separated(points),
    ensures
        Univariate::canonical(z),
        Univariate::monic(z, points.len() as int),
        vanishes(z, points),
        forall|b: Xf| #[trigger]
            avoids(b, points) ==> Univariate::value(z, b).is_base() && Univariate::value(z, b)
                != Xf::zero(),
    decreases points.len(),
{
    if points.len() == 0 {
        let z = seq![Xf::one()];
        assert forall|b: Xf| #[trigger] avoids(b, points) implies Univariate::value(z, b).is_base()
            && Univariate::value(z, b) != Xf::zero() by {
            univariate::lemma_value_constant(Xf::one(), b);
            field_model::lemma_reduce(Xf::one());
        }
        z
    } else {
        let n = points.len() as int;
        let a = points.last();
        let others = points.drop_last();
        assert(a == points[n - 1]);
        lemma_fewer_separated(points);
        let inner = lemma_vanishing_polynomial(others);
        let factor = Univariate::linear(a);
        let z = Univariate::mul(inner, factor);
        univariate::lemma_linear(a, a);
        lemma_product_canonical(inner, factor);
        univariate::lemma_degree_mul(inner, factor, n - 1, 1);
        univariate::lemma_leading_mul(inner, factor, n - 1, 1);
        field_model::lemma_mul_basics(Xf::one());
        field_model::lemma_reduce(Xf::one());
        assert forall|i: int| 0 <= i < points.len() implies Univariate::value(
            z,
            #[trigger] points[i],
        ) == Xf::zero() by {
            univariate::lemma_value_mul(inner, factor, points[i]);
            univariate::lemma_linear(a, points[i]);
            field_model::lemma_difference_zero(points[i], a);
            if i < n - 1 {
                assert(points[i] == others[i]);
            }
            field_model::lemma_mul_basics(Univariate::value(inner, points[i]));
            field_model::lemma_mul_basics(Univariate::value(factor, points[i]));
        }
        assert forall|b: Xf| #[trigger] avoids(b, points) implies Univariate::value(z, b).is_base()
            && Univariate::value(z, b) != Xf::zero() by {
            assert(b != points[n - 1]);
            assert(avoids(b, others)) by {
                assert forall|i: int| 0 <= i < others.len() implies b != #[trigger] others[i] by {
                    assert(others[i] == points[i]);
                }
            }
            univariate::lemma_value_mul(inner, factor, b);
            univariate::lemma_linear(a, b);
            lemma_base_difference(b, a);
            univariate::lemma_value_canonical(inner, b);
            field_model::lemma_base_closed(Univariate::value(inner, b), Xf::sub(b, a));
            if Univariate::value(z, b) == Xf::zero() {
                prime::lemma_no_zero_divisor(Univariate::value(inner, b), Xf::sub(b, a));
            }
        }
        z
    }
}

/// Any values at separated points are those of a polynomial of a degree below their number.
pub proof fn law_interpolants_exist(points: Seq<Xf>, values: Seq<Xf>) -> (p: Seq<Xf>)
    requires
        separated(points),
        values.len() == points.len(),
        Univariate::canonical(values),
    ensures
        passes_through(p, points, values),
        Univariate::degree_at_most(p, points.len() - 1),
    decreases points.len(),
{
    if points.len() == 0 {
        Seq::empty()
    } else {
        let n = points.len() as int;
        let a = points.last();
        let v = values.last();
        assert(a == points[n - 1] && v == values[n - 1]);
        let others = points.drop_last();
        let rest = values.drop_last();
        lemma_fewer_separated(points);
        assert forall|i: int| 0 <= i < rest.len() implies (#[trigger] rest[i]).canonical() by {
            assert(values[i].canonical());
        }
        let inner = law_interpolants_exist(others, rest);
        let z = lemma_vanishing_polynomial(others);
        let w = Univariate::value(inner, a);
        let at_a = Univariate::value(z, a);
        assert(avoids(a, others));
        univariate::lemma_value_canonical(z, a);
        prime::law_base_elements_have_inverses(at_a);
        let c = Xf::mul(Xf::sub(v, w), Xf::inv(at_a));
        let added = Univariate::scale(c, z);
        let p = Univariate::add(inner, added);
        assert forall|k: int| 0 <= k < p.len() implies (#[trigger] p[k]).canonical() by {
            field_model::lemma_sub_reduced(
                Univariate::coefficient(inner, k),
                Univariate::coefficient(added, k),
            );
        }
        assert forall|k: int| k > n - 1 implies #[trigger] Univariate::coefficient(p, k)
            == Xf::zero() by {
            lemma_sum_coefficient(inner, added, k);
            assert(Univariate::coefficient(inner, k) == Xf::zero());
            assert(Univariate::coefficient(z, k) == Xf::zero());
            field_model::lemma_mul_basics(c);
            field_model::lemma_add_zero(Xf::zero());
            field_model::lemma_reduce(Xf::zero());
        }
        assert forall|i: int| 0 <= i < points.len() implies Univariate::value(p, #[trigger] points[i])
            == values[i] by {
            let x = points[i];
            univariate::lemma_value_add(inner, added, x);
            univariate::lemma_value_scale(c, z, x);
            univariate::lemma_value_canonical(inner, x);
            if i < n - 1 {
                assert(x == others[i] && values[i] == rest[i]);
                field_model::lemma_mul_basics(c);
                field_model::lemma_add_zero(Univariate::value(inner, x));
            } else {
                field_model::lemma_divide_multiply(Xf::sub(v, w), at_a, Xf::inv(at_a));
                field_model::lemma_sub_reduced(v, w);
                // w + (v - w) == v
                field_model::lemma_add_zero(w);
                lemma_cancels(w, Xf::zero(), v);
                field_model::lemma_add_zero(v);
                field_model::lemma_reduce(v);
            }
        }
        p
    }
}

/// The degree that columns are taken to have is the one that the table's rows and the randomizers
/// call for: whatever the values at that many points, a polynomial of this degree passes through
/// them, and for some values no polynomial of a smaller degree does.
pub proof fn law_interpolant_degree_is_least(
    padded_height: usize,
    num_trace_randomizers: usize,
    points: Seq<Xf>,
)
    requires
        separated(points),
        points.len() == padded_height + num_trace_randomizers,
        points.len() >= 1,
    ensures
        forall|values: Seq<Xf>| #[trigger]
            Univariate::canonical(values) && values.len() == points.len() ==> exists|p: Seq<Xf>|
                #[trigger]
                passes_through(p, points, values) && Univariate::degree(p)
                    <= table_collection::spec_interpolant_degree(
                    padded_height,
                    num_trace_randomizers,
                ),
        exists|values: Seq<Xf>|
            #![trigger Univariate::canonical(values)]
            Univariate::canonical(values) && values.len() == points.len() && forall|p: Seq<Xf>|
                #[trigger]
                passes_through(p, points, values) ==> Univariate::degree(p)
                    >= table_collection::spec_interpolant_degree(
                    padded_height,
                    num_trace_randomizers,
                ),
{
    let n = points.len() as int;
    assert forall|values: Seq<Xf>| #[trigger]
        Univariate::canonical(values) && values.len() == points.len() implies exists|p: Seq<Xf>|
        #[trigger]
        passes_through(p, points, values) && Univariate::degree(p)
            <= table_collection::spec_interpolant_degree(padded_height, num_trace_randomizers) by {
        let p = law_interpolants_exist(points, values);
        univariate::lemma_degree(p, n - 1);
        assert(passes_through(p, points, values));
    }
    lemma_fewer_separated(points);
    let z = lemma_vanishing_polynomial(points.drop_last());
    let hard = Seq::new(points.len(), |i: int| Univariate::value(z, points[i]));
    assert forall|i: int| 0 <= i < hard.len() implies (#[trigger] hard[i]).canonical() by {
        univariate::lemma_value_canonical(z, points[i]);
    }
    assert forall|p: Seq<Xf>| #[trigger] passes_through(p, points, hard) implies Univariate::degree(p)
        >= table_collection::spec_interpolant_degree(padded_height, num_trace_randomizers) by {
        if Univariate::degree(p) < n - 1 {
            univariate::lemma_degree_range(p);
            univariate::lemma_degree(p, n - 1);
            univariate::lemma_degree(p, n - 2);
            assert forall|i: int| 0 <= i < points.len() implies Univariate::value(
                p,
                #[trigger] points[i],
            ) == Univariate::value(z, points[i]) by {
                assert(hard[i] == Univariate::value(z, points[i]));
            }
            law_values_determine_coefficients(p, z, points);
            assert(Univariate::coefficient(p, n - 1) == Univariate::coefficient(z, n - 1));
        }
    }
    assert(Univariate::canonical(hard));
}

} // verus!
