//! The extension field as mathematics.
//!
//! Elements are polynomials of degree below three over the integers modulo [`P`], multiplied
//! modulo `x^3 - x + 1`.
use vstd::arithmetic::div_mod::*;
use vstd::arithmetic::mul::*;
use vstd::prelude::*;

verus! {

/// The order of the base field, `2^64 - 2^32 + 1`.
pub const P: u64 = 0xffff_ffff_0000_0001;

/// The polynomial `c2 * x^2 + c1 * x + c0`.
pub struct Xf {
    pub c0: int,
    pub c1: int,
    pub c2: int,
}

impl Xf {
    /// Every coefficient is reduced: the representative of a field element.
    pub open spec fn canonical(self) -> bool {
        &&& 0 <= self.c0 < P
        &&& 0 <= self.c1 < P
        &&& 0 <= self.c2 < P
    }

    /// The element lies in the base field.
    pub open spec fn is_base(self) -> bool {
        self.c1 == 0 && self.c2 == 0
    }

    /// The field's zero.
    pub open spec fn zero() -> Xf {
        Xf { c0: 0, c1: 0, c2: 0 }
    }

    /// The field's one.
    pub open spec fn one() -> Xf {
        Xf { c0: 1, c1: 0, c2: 0 }
    }

    /// Reduces every coefficient modulo `P`.
    pub open spec fn reduce(a: Xf) -> Xf {
        Xf { c0: a.c0 % (P as int), c1: a.c1 % (P as int), c2: a.c2 % (P as int) }
    }

    /// Addition in the field.
    pub open spec fn add(a: Xf, b: Xf) -> Xf {
        Xf::reduce(zadd(a, b))
    }

    /// Subtraction in the field.
    pub open spec fn sub(a: Xf, b: Xf) -> Xf {
        Xf::reduce(Xf { c0: a.c0 - b.c0, c1: a.c1 - b.c1, c2: a.c2 - b.c2 })
    }

    /// Multiplication in the field.
    pub open spec fn mul(a: Xf, b: Xf) -> Xf {
        Xf::reduce(zmul(a, b))
    }

    /// Exponentiation in the field; the zeroth power of any element is one.
    pub open spec fn pow(a: Xf, e: nat) -> Xf
        decreases e,
    {
        if e == 0 {
            Xf::one()
        } else {
            Xf::mul(Xf::pow(a, (e - 1) as nat), a)
        }
    }

    /// `b` is the reduced element whose product with `a` is one.
    pub open spec fn is_inverse(a: Xf, b: Xf) -> bool {
        b.canonical() && Xf::mul(b, a) == Xf::one()
    }

    /// The multiplicative inverse of `a`; zero for zero.
    pub open spec fn inv(a: Xf) -> Xf {
        if a == Xf::zero() {
            Xf::zero()
        } else {
            choose|b: Xf| Xf::is_inverse(a, b)
        }
    }
}

/// The sum over the integers.
pub open spec fn zadd(a: Xf, b: Xf) -> Xf {
    Xf { c0: a.c0 + b.c0, c1: a.c1 + b.c1, c2: a.c2 + b.c2 }
}

/// The product over the integers, modulo `x^3 - x + 1`.
pub open spec fn zmul(a: Xf, b: Xf) -> Xf {
    Xf {
        c0: a.c0 * b.c0 - a.c2 * b.c1 - a.c1 * b.c2,
        c1: a.c1 * b.c0 + a.c0 * b.c1 - a.c2 * b.c2 + a.c2 * b.c1 + a.c1 * b.c2,
        c2: a.c2 * b.c0 + a.c1 * b.c1 + a.c0 * b.c2 + a.c2 * b.c2,
    }
}

/// Every coefficient times `k`.
spec fn zscale(k: int, a: Xf) -> Xf {
    Xf { c0: k * a.c0, c1: k * a.c1, c2: k * a.c2 }
}

/// Reduction yields a representative and leaves representatives alone.
pub proof fn lemma_reduce(a: Xf)
    ensures
        Xf::reduce(a).canonical(),
        a.canonical() ==> Xf::reduce(a) == a,
        Xf::reduce(Xf::reduce(a)) == Xf::reduce(a),
{
    let p = P as int;
    lemma_mod_bound(a.c0, p);
    lemma_mod_bound(a.c1, p);
    lemma_mod_bound(a.c2, p);
    if a.canonical() {
        lemma_small_mod(a.c0 as nat, p as nat);
        lemma_small_mod(a.c1 as nat, p as nat);
        lemma_small_mod(a.c2 as nat, p as nat);
    }
    lemma_mod_twice(a.c0, p);
    lemma_mod_twice(a.c1, p);
    lemma_mod_twice(a.c2, p);
}

/// Adding a multiple of `P` does not change the reduced element.
proof fn lemma_reduce_add_multiple(a: Xf, k: Xf)
    ensures
        Xf::reduce(zadd(a, zscale(P as int, k))) == Xf::reduce(a),
{
    let p = P as int;
    lemma_mod_multiples_vanish(k.c0, a.c0, p);
    lemma_mod_multiples_vanish(k.c1, a.c1, p);
    lemma_mod_multiples_vanish(k.c2, a.c2, p);
}

/// Every element is its representative plus a multiple of `P`.
proof fn lemma_split(a: Xf) -> (k: Xf)
    ensures
        a == zadd(Xf::reduce(a), zscale(P as int, k)),
{
    let p = P as int;
    lemma_fundamental_div_mod(a.c0, p);
    lemma_fundamental_div_mod(a.c1, p);
    lemma_fundamental_div_mod(a.c2, p);
    Xf { c0: a.c0 / p, c1: a.c1 / p, c2: a.c2 / p }
}

/// Multiplication distributes over the three, four and five terms that a product's coefficients
/// are made of.
proof fn lemma_distribute(t: int, u: int, v: int, w: int, y: int, z: int)
    ensures
        (u - v - w) * t == u * t - v * t - w * t,
        (u + v + w + y) * t == u * t + v * t + w * t + y * t,
        (u + v - w + y + z) * t == u * t + v * t - w * t + y * t + z * t,
{
    assert((u - v - w) * t == u * t - v * t - w * t) by (nonlinear_arith);
    assert((u + v + w + y) * t == u * t + v * t + w * t + y * t) by (nonlinear_arith);
    assert((u + v - w + y + z) * t == u * t + v * t - w * t + y * t + z * t) by (nonlinear_arith);
}

/// The coefficients of a product, each times `t`, expanded.
proof fn lemma_expand(a: Xf, b: Xf, t: int)
    ensures
        zmul(a, b).c0 * t == (a.c0 * b.c0) * t - (a.c2 * b.c1) * t - (a.c1 * b.c2) * t,
        zmul(a, b).c1 * t == (a.c1 * b.c0) * t + (a.c0 * b.c1) * t - (a.c2 * b.c2) * t + (a.c2
            * b.c1) * t + (a.c1 * b.c2) * t,
        zmul(a, b).c2 * t == (a.c2 * b.c0) * t + (a.c1 * b.c1) * t + (a.c0 * b.c2) * t + (a.c2
            * b.c2) * t,
{
    lemma_distribute(t, a.c0 * b.c0, a.c2 * b.c1, a.c1 * b.c2, 0, 0);
    lemma_distribute(t, a.c1 * b.c0, a.c0 * b.c1, a.c2 * b.c2, a.c2 * b.c1, a.c1 * b.c2);
    lemma_distribute(t, a.c2 * b.c0, a.c1 * b.c1, a.c0 * b.c2, a.c2 * b.c2, 0);
}

/// `t` times the coefficients of a product, expanded.
proof fn lemma_expand_left(a: Xf, b: Xf, t: int)
    ensures
        t * zmul(a, b).c0 == t * (a.c0 * b.c0) - t * (a.c2 * b.c1) - t * (a.c1 * b.c2),
        t * zmul(a, b).c1 == t * (a.c1 * b.c0) + t * (a.c0 * b.c1) - t * (a.c2 * b.c2) + t * (a.c2
            * b.c1) + t * (a.c1 * b.c2),
        t * zmul(a, b).c2 == t * (a.c2 * b.c0) + t * (a.c1 * b.c1) + t * (a.c0 * b.c2) + t * (a.c2
            * b.c2),
{
    lemma_expand(a, b, t);
    lemma_mul_is_commutative(t, zmul(a, b).c0);
    lemma_mul_is_commutative(t, zmul(a, b).c1);
    lemma_mul_is_commutative(t, zmul(a, b).c2);
    lemma_mul_is_commutative(t, a.c0 * b.c0);
    lemma_mul_is_commutative(t, a.c0 * b.c1);
    lemma_mul_is_commutative(t, a.c0 * b.c2);
    lemma_mul_is_commutative(t, a.c1 * b.c0);
    lemma_mul_is_commutative(t, a.c1 * b.c1);
    lemma_mul_is_commutative(t, a.c1 * b.c2);
    lemma_mul_is_commutative(t, a.c2 * b.c0);
    lemma_mul_is_commutative(t, a.c2 * b.c1);
    lemma_mul_is_commutative(t, a.c2 * b.c2);
}

/// `(u + p * v) * w` is `u * w + p * (v * w)`.
proof fn lemma_fused(u: int, v: int, w: int, p: int)
    ensures
        (u + p * v) * w == u * w + p * (v * w),
{
    lemma_mul_is_distributive_add_other_way(w, u, p * v);
    lemma_mul_is_associative(p, v, w);
}

/// `(a + p * k) * b` is `a * b + p * (k * b)`.
proof fn lemma_zmul_linear(a: Xf, k: Xf, b: Xf, p: int)
    ensures
        zmul(zadd(a, zscale(p, k)), b) == zadd(zmul(a, b), zscale(p, zmul(k, b))),
{
    lemma_fused(a.c0, k.c0, b.c0, p);
    lemma_fused(a.c0, k.c0, b.c1, p);
    lemma_fused(a.c0, k.c0, b.c2, p);
    lemma_fused(a.c1, k.c1, b.c0, p);
    lemma_fused(a.c1, k.c1, b.c1, p);
    lemma_fused(a.c1, k.c1, b.c2, p);
    lemma_fused(a.c2, k.c2, b.c0, p);
    lemma_fused(a.c2, k.c2, b.c1, p);
    lemma_fused(a.c2, k.c2, b.c2, p);
    lemma_expand_left(k, b, p);
}

/// Multiplication commutes.
pub proof fn lemma_mul_commutes(a: Xf, b: Xf)
    ensures
        zmul(a, b) == zmul(b, a),
        Xf::mul(a, b) == Xf::mul(b, a),
{
    lemma_mul_is_commutative(a.c0, b.c0);
    lemma_mul_is_commutative(a.c0, b.c1);
    lemma_mul_is_commutative(a.c0, b.c2);
    lemma_mul_is_commutative(a.c1, b.c0);
    lemma_mul_is_commutative(a.c1, b.c1);
    lemma_mul_is_commutative(a.c1, b.c2);
    lemma_mul_is_commutative(a.c2, b.c0);
    lemma_mul_is_commutative(a.c2, b.c1);
    lemma_mul_is_commutative(a.c2, b.c2);
}

/// The factors of a product may be reduced beforehand.
pub proof fn lemma_mul_reduced(a: Xf, b: Xf)
    ensures
        Xf::mul(Xf::reduce(a), b) == Xf::mul(a, b),
        Xf::mul(a, Xf::reduce(b)) == Xf::mul(a, b),
{
    let k = lemma_split(a);
    lemma_zmul_linear(Xf::reduce(a), k, b, P as int);
    lemma_reduce_add_multiple(zmul(Xf::reduce(a), b), zmul(k, b));
    let l = lemma_split(b);
    lemma_zmul_linear(Xf::reduce(b), l, a, P as int);
    lemma_reduce_add_multiple(zmul(Xf::reduce(b), a), zmul(l, a));
    lemma_mul_commutes(a, b);
    lemma_mul_commutes(a, Xf::reduce(b));
}

/// Multiplication over the integers is associative.
proof fn lemma_zmul_associates(a: Xf, b: Xf, c: Xf)
    ensures
        zmul(zmul(a, b), c) == zmul(a, zmul(b, c)),
{
    lemma_expand(a, b, c.c0);
    lemma_expand(a, b, c.c1);
    lemma_expand(a, b, c.c2);
    lemma_expand_left(b, c, a.c0);
    lemma_expand_left(b, c, a.c1);
    lemma_expand_left(b, c, a.c2);
    lemma_triples(a.c0, b, c);
    lemma_triples(a.c1, b, c);
    lemma_triples(a.c2, b, c);
}

/// Products of three coefficients associate.
proof fn lemma_triples(u: int, b: Xf, c: Xf)
    ensures
        (u * b.c0) * c.c0 == u * (b.c0 * c.c0),
        (u * b.c0) * c.c1 == u * (b.c0 * c.c1),
        (u * b.c0) * c.c2 == u * (b.c0 * c.c2),
        (u * b.c1) * c.c0 == u * (b.c1 * c.c0),
        (u * b.c1) * c.c1 == u * (b.c1 * c.c1),
        (u * b.c1) * c.c2 == u * (b.c1 * c.c2),
        (u * b.c2) * c.c0 == u * (b.c2 * c.c0),
        (u * b.c2) * c.c1 == u * (b.c2 * c.c1),
        (u * b.c2) * c.c2 == u * (b.c2 * c.c2),
{
    lemma_mul_is_associative(u, b.c0, c.c0);
    lemma_mul_is_associative(u, b.c0, c.c1);
    lemma_mul_is_associative(u, b.c0, c.c2);
    lemma_mul_is_associative(u, b.c1, c.c0);
    lemma_mul_is_associative(u, b.c1, c.c1);
    lemma_mul_is_associative(u, b.c1, c.c2);
    lemma_mul_is_associative(u, b.c2, c.c0);
    lemma_mul_is_associative(u, b.c2, c.c1);
    lemma_mul_is_associative(u, b.c2, c.c2);
}

/// Sums and differences are reduced.
pub proof fn lemma_sub_reduced(a: Xf, b: Xf)
    ensures
        Xf::sub(a, b).canonical(),
        Xf::reduce(Xf::sub(a, b)) == Xf::sub(a, b),
        Xf::add(a, b).canonical(),
        Xf::reduce(Xf::add(a, b)) == Xf::add(a, b),
{
    lemma_reduce(Xf { c0: a.c0 - b.c0, c1: a.c1 - b.c1, c2: a.c2 - b.c2 });
    lemma_reduce(zadd(a, b));
}

/// The summands of a sum may be reduced beforehand.
pub proof fn lemma_add_reduced(a: Xf, b: Xf)
    ensures
        Xf::add(Xf::reduce(a), b) == Xf::add(a, b),
        Xf::add(a, Xf::reduce(b)) == Xf::add(a, b),
{
    let k = lemma_split(a);
    lemma_reduce_add_multiple(zadd(Xf::reduce(a), b), k);
    let l = lemma_split(b);
    lemma_reduce_add_multiple(zadd(a, Xf::reduce(b)), l);
}

/// Zero is neutral.
pub proof fn lemma_add_zero(a: Xf)
    ensures
        Xf::add(a, Xf::zero()) == Xf::reduce(a),
        Xf::add(Xf::zero(), a) == Xf::reduce(a),
{
}

/// The inner summands of a sum of two sums may change places.
pub proof fn lemma_add_exchanges(a: Xf, b: Xf, c: Xf, d: Xf)
    ensures
        Xf::add(Xf::add(a, b), Xf::add(c, d)) == Xf::add(Xf::add(a, c), Xf::add(b, d)),
{
    lemma_add_reduced(zadd(a, b), Xf::add(c, d));
    lemma_add_reduced(zadd(a, b), zadd(c, d));
    lemma_add_reduced(zadd(a, c), Xf::add(b, d));
    lemma_add_reduced(zadd(a, c), zadd(b, d));
    assert(zadd(zadd(a, b), zadd(c, d)) == zadd(zadd(a, c), zadd(b, d)));
}

/// Multiplication distributes over addition.
pub proof fn lemma_mul_distributes(a: Xf, b: Xf, c: Xf)
    ensures
        Xf::mul(a, Xf::add(b, c)) == Xf::add(Xf::mul(a, b), Xf::mul(a, c)),
{
    lemma_mul_reduced(a, zadd(b, c));
    lemma_zmul_linear(b, c, a, 1);
    assert(zadd(b, zscale(1, c)) == zadd(b, c));
    lemma_mul_commutes(a, zadd(b, c));
    lemma_mul_commutes(a, b);
    lemma_mul_commutes(a, c);
    assert(zscale(1, zmul(c, a)) == zmul(c, a));
    lemma_add_reduced(zmul(a, b), Xf::mul(a, c));
    lemma_add_reduced(zmul(a, b), zmul(a, c));
}

/// Multiplication is associative.
pub proof fn lemma_mul_associates(a: Xf, b: Xf, c: Xf)
    ensures
        Xf::mul(Xf::mul(a, b), c) == Xf::mul(a, Xf::mul(b, c)),
{
    lemma_zmul_associates(a, b, c);
    lemma_mul_reduced(zmul(a, b), c);
    lemma_mul_reduced(a, zmul(b, c));
}

/// Products are reduced; one is neutral and zero absorbs.
pub proof fn lemma_mul_basics(a: Xf)
    ensures
        Xf::mul(a, Xf::one()) == Xf::reduce(a),
        Xf::mul(Xf::one(), a) == Xf::reduce(a),
        Xf::mul(a, Xf::zero()) == Xf::zero(),
        Xf::mul(Xf::zero(), a) == Xf::zero(),
{
    lemma_mul_commutes(a, Xf::one());
    lemma_mul_commutes(a, Xf::zero());
}

/// An element has at most one inverse: whatever multiplies to one with `a` is `Xf::inv(a)`.
pub proof fn lemma_inverse_unique(a: Xf, b: Xf)
    requires
        Xf::is_inverse(a, b),
    ensures
        Xf::inv(a) == b,
        a != Xf::zero(),
{
    if a == Xf::zero() {
        lemma_mul_basics(b);
    } else {
        let c = Xf::inv(a);
        assert(Xf::is_inverse(a, c));
        // c == c * (a * b) == (c * a) * b == b
        lemma_mul_commutes(a, b);
        lemma_mul_associates(c, a, b);
        lemma_mul_basics(c);
        lemma_mul_basics(b);
        lemma_reduce(b);
        lemma_reduce(c);
    }
}

/// Multiplying by an inverse is undone by multiplying with the element itself.
pub proof fn lemma_divide_multiply(e: Xf, z: Xf, z_inv: Xf)
    requires
        Xf::mul(z_inv, z) == Xf::one(),
    ensures
        Xf::mul(Xf::mul(e, z_inv), z) == Xf::reduce(e),
{
    lemma_mul_associates(e, z_inv, z);
    lemma_mul_basics(e);
}

/// Powers are reduced.
pub proof fn lemma_pow_canonical(a: Xf, e: nat)
    ensures
        Xf::pow(a, e).canonical(),
{
    if e > 0 {
        lemma_reduce(zmul(Xf::pow(a, (e - 1) as nat), a));
    }
}

/// Exponents add.
pub proof fn lemma_pow_adds(a: Xf, m: nat, n: nat)
    ensures
        Xf::pow(a, m + n) == Xf::mul(Xf::pow(a, m), Xf::pow(a, n)),
    decreases n,
{
    if n == 0 {
        lemma_mul_basics(Xf::pow(a, m));
        lemma_pow_canonical(a, m);
        lemma_reduce(Xf::pow(a, m));
    } else {
        let k = (n - 1) as nat;
        lemma_pow_adds(a, m, k);
        assert((m + n - 1) as nat == m + k);
        lemma_mul_associates(Xf::pow(a, m), Xf::pow(a, k), a);
    }
}

/// Two representatives are the same where their difference is zero.
pub proof fn lemma_difference_zero(a: Xf, b: Xf)
    requires
        a.canonical(),
        b.canonical(),
    ensures
        Xf::sub(a, b) == Xf::zero() <==> a == b,
{
    lemma_difference_mod(a.c0, b.c0);
    lemma_difference_mod(a.c1, b.c1);
    lemma_difference_mod(a.c2, b.c2);
}

proof fn lemma_difference_mod(a: int, b: int)
    requires
        0 <= a < P,
        0 <= b < P,
    ensures
        (a - b) % (P as int) == 0 <==> a == b,
{
    let p = P as int;
    if a >= b {
        lemma_small_mod((a - b) as nat, p as nat);
    } else {
        lemma_mod_multiples_vanish(1, a - b, p);
        lemma_small_mod((a - b + p) as nat, p as nat);
    }
}

/// A power of an element whose order divides `order` depends on the exponent modulo `order` only.
pub proof fn lemma_pow_wraps(a: Xf, order: nat, turns: nat, rest: nat)
    requires
        Xf::pow(a, order) == Xf::one(),
    ensures
        Xf::pow(a, order * turns + rest) == Xf::pow(a, rest),
    decreases turns,
{
    if turns > 0 {
        let fewer = (turns - 1) as nat;
        lemma_pow_wraps(a, order, fewer, rest);
        assert(order * turns == order * fewer + order) by {
            lemma_mul_is_distributive_add(order as int, fewer as int, 1);
        }
        lemma_pow_adds(a, order, order * fewer + rest);
        lemma_mul_basics(Xf::pow(a, rest));
        lemma_pow_canonical(a, rest);
        lemma_reduce(Xf::pow(a, rest));
        assert(order * turns + rest == order + (order * fewer + rest));
    } else {
        assert(order * turns == 0) by (nonlinear_arith)
            requires
                turns == 0,
        ;
    }
}

/// Products, powers and differences of base elements are base elements.
pub proof fn lemma_base_closed(a: Xf, b: Xf)
    requires
        a.is_base(),
        b.is_base(),
    ensures
        Xf::mul(a, b).is_base(),
        Xf::mul(a, b).canonical(),
        Xf::sub(a, b).is_base(),
        Xf::sub(a, b).canonical(),
{
    assert(zmul(a, b).c1 == 0 && zmul(a, b).c2 == 0) by (nonlinear_arith)
        requires
            a.c1 == 0,
            a.c2 == 0,
            b.c1 == 0,
            b.c2 == 0,
    ;
    lemma_reduce(zmul(a, b));
    lemma_sub_reduced(a, b);
}

/// Powers of base elements are base elements.
pub proof fn lemma_base_powers(a: Xf, e: nat)
    requires
        a.is_base(),
    ensures
        Xf::pow(a, e).is_base(),
        Xf::pow(a, e).canonical(),
    decreases e,
{
    if e > 0 {
        lemma_base_powers(a, (e - 1) as nat);
        lemma_base_closed(Xf::pow(a, (e - 1) as nat), a);
    }
}

} // verus!
