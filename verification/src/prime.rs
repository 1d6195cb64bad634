//! The order of the base field is prime, so that every base element but zero has an inverse.
//!
//! The proof looks at an element whose power by `2^31` is minus one. Modulo any divisor of the order,
//! its first `2^32` powers differ, so that every divisor exceeds `2^32`. Two such divisors would
//! multiply to more than the order.
use crate::field_model;
use crate::field_model::Xf;
use crate::field_model::P;
use vstd::arithmetic::div_mod::*;
use vstd::arithmetic::mul::*;
use vstd::arithmetic::power::*;
use vstd::arithmetic::power2::*;
use vstd::prelude::*;
use vstd::relations::injective_on;
use vstd::set_lib::*;

verus! {

/// The element whose powers are looked at.
spec fn root() -> int {
    1753635133440165772
}

/// Squaring, modulo the order.
proof fn lemma_square(e: nat, x: int, y: int)
    requires
        pow(root(), e) % (P as int) == x,
        (x * x) % (P as int) == y,
    ensures
        pow(root(), 2 * e) % (P as int) == y,
{
    lemma_pow_adds(root(), e, e);
    lemma_mul_mod_noop(pow(root(), e), pow(root(), e), P as int);
}

/// The power of the root by `2^31` is minus one.
proof fn lemma_root_half()
    ensures
        pow(root(), 0x8000_0000) % (P as int) == P - 1,
{
    lemma_pow1(root());
    lemma_square(1, 1753635133440165772, 4614640910117430873);
    lemma_square(2, 4614640910117430873, 9123114210336311365);
    lemma_square(4, 9123114210336311365, 16116352524544190054);
    lemma_square(8, 16116352524544190054, 6414415596519834757);
    lemma_square(16, 6414415596519834757, 1213594585890690845);
    lemma_square(32, 1213594585890690845, 17096174751763063430);
    lemma_square(64, 17096174751763063430, 5456943929260765144);
    lemma_square(128, 5456943929260765144, 9713644485405565297);
    lemma_square(256, 9713644485405565297, 16905767614792059275);
    lemma_square(512, 16905767614792059275, 5416168637041100469);
    lemma_square(1024, 5416168637041100469, 17654865857378133588);
    lemma_square(2048, 17654865857378133588, 3511170319078647661);
    lemma_square(4096, 3511170319078647661, 18146160046829613826);
    lemma_square(8192, 18146160046829613826, 9306717745644682924);
    lemma_square(16384, 9306717745644682924, 12380578893860276750);
    lemma_square(32768, 12380578893860276750, 6115771955107415310);
    lemma_square(65536, 6115771955107415310, 17776499369601055404);
    lemma_square(131072, 17776499369601055404, 16207902636198568418);
    lemma_square(262144, 16207902636198568418, 1532612707718625687);
    lemma_square(524288, 1532612707718625687, 17492915097719143606);
    lemma_square(1048576, 17492915097719143606, 455906449640507599);
    lemma_square(2097152, 455906449640507599, 11353340290879379826);
    lemma_square(4194304, 11353340290879379826, 1803076106186727246);
    lemma_square(8388608, 1803076106186727246, 13797081185216407910);
    lemma_square(16777216, 13797081185216407910, 17870292113338400769);
    lemma_square(33554432, 17870292113338400769, 549755813888);
    lemma_square(67108864, 549755813888, 70368744161280);
    lemma_square(134217728, 70368744161280, 17293822564807737345);
    lemma_square(268435456, 17293822564807737345, 18446744069397807105);
    lemma_square(536870912, 18446744069397807105, 281474976710656);
    lemma_square(1073741824, 281474976710656, 18446744069414584320);
}

/// Every number below `2^t` has a multiple that is an odd multiple of `2^(t - 1)`.
pub(crate) proof fn lemma_odd_multiple(m: nat, t: nat) -> (r: (nat, nat))
    requires
        0 < m < pow2(t),
        t > 0,
    ensures
        m * r.0 == pow2((t - 1) as nat) * (2 * r.1 + 1),
    decreases m,
{
    if m % 2 == 1 {
        lemma_mul_is_commutative(m as int, pow2((t - 1) as nat) as int);
        (pow2((t - 1) as nat), (m / 2) as nat)
    } else {
        let half = (m / 2) as nat;
        lemma_pow2_unfold(t);
        if t == 1 {
            lemma2_to64();
            assert(false);
        }
        lemma_pow2_unfold((t - 1) as nat);
        let (c, u) = lemma_odd_multiple(half, (t - 1) as nat);
        let power = pow2((t - 2) as nat) as int;
        lemma_mul_is_associative(2, half as int, c as int);
        lemma_mul_is_associative(2, power, (2 * u + 1) as int);
        (c, u)
    }
}

/// What holds of the powers of the root modulo a divisor of the order.
proof fn lemma_root_modulo(q: int)
    requires
        1 < q,
        P as int % q == 0,
    ensures
        q > 2,
        pow(root(), 0x8000_0000) % q == q - 1,
        pow(root(), 0x1_0000_0000) % q == 1,
{
    let p = P as int;
    let half = pow(root(), 0x8000_0000);
    lemma_root_half();
    if q == 2 {
        assert(p % 2 == 1);
    }
    // half == p * (half / p) + p - 1, and q divides p
    lemma_fundamental_div_mod(half, p);
    lemma_fundamental_div_mod(p, q);
    let k = p / q;
    let l = half / p;
    assert(half == q * (k * l + k) - 1) by {
        lemma_mul_is_associative(q, k, l);
        lemma_mul_is_distributive_add(q, k * l, k);
    }
    lemma_mod_multiples_vanish(k * l + k, -1, q);
    lemma_mod_multiples_vanish(1, -1, q);
    lemma_small_mod((q - 1) as nat, q as nat);
    lemma_pow_adds(root(), 0x8000_0000, 0x8000_0000);
    lemma_mul_mod_noop(half, half, q);
    assert((q - 1) * (q - 1) == q * (q - 2) + 1) by (nonlinear_arith);
    lemma_mod_multiples_vanish(q - 2, 1, q);
    lemma_small_mod(1, q as nat);
}

/// Powers of what is one are one.
proof fn lemma_power_of_one(e: nat, c: nat, q: int)
    requires
        1 < q,
        pow(root(), e) % q == 1,
    ensures
        pow(root(), e * c) % q == 1,
{
    lemma_pow_multiplies(root(), e, c);
    lemma_pow_mod_noop(pow(root(), e), c, q);
    lemma1_pow(c);
    lemma_small_mod(1, q as nat);
}

/// No power of the root below that by `2^32` is one.
proof fn lemma_root_order(q: int, m: nat)
    requires
        1 < q,
        P as int % q == 0,
        0 < m < 0x1_0000_0000,
    ensures
        pow(root(), m) % q != 1,
{
    lemma_root_modulo(q);
    if pow(root(), m) % q == 1 {
        lemma2_to64();
        let (c, u) = lemma_odd_multiple(m, 32);
        let half = 0x8000_0000nat;
        lemma_power_of_one(m, c, q);
        lemma_power_of_one(0x1_0000_0000, u, q);
        assert(m * c == 0x1_0000_0000 * u + half) by {
            assert(pow2(31) * (2 * u + 1) == 0x8000_0000 * (2 * u + 1));
        }
        lemma_pow_adds(root(), 0x1_0000_0000 * u, half);
        lemma_mul_mod_noop(pow(root(), 0x1_0000_0000 * u), pow(root(), half), q);
        lemma_small_mod((q - 1) as nat, q as nat);
        assert(false);
    }
}

/// The first `2^32` powers of the root differ.
proof fn lemma_root_powers_differ(q: int, i: nat, j: nat)
    requires
        1 < q,
        P as int % q == 0,
        i < j < 0x1_0000_0000,
    ensures
        pow(root(), i) % q != pow(root(), j) % q,
{
    if pow(root(), i) % q == pow(root(), j) % q {
        lemma_root_modulo(q);
        let back = (0x1_0000_0000 - i) as nat;
        let distance = (j - i) as nat;
        lemma_pow_adds(root(), i, back);
        lemma_pow_adds(root(), j, back);
        lemma_mul_mod_noop(pow(root(), i), pow(root(), back), q);
        lemma_mul_mod_noop(pow(root(), j), pow(root(), back), q);
        assert(i + back == 0x1_0000_0000);
        assert(j + back == 0x1_0000_0000 + distance);
        lemma_pow_adds(root(), 0x1_0000_0000, distance);
        lemma_mul_mod_noop(pow(root(), 0x1_0000_0000), pow(root(), distance), q);
        lemma_mod_twice(pow(root(), distance), q);
        lemma_root_order(q, distance);
    }
}

/// No power of the root is zero.
proof fn lemma_root_power_nonzero(q: int, i: nat)
    requires
        1 < q,
        P as int % q == 0,
        i < 0x1_0000_0000,
    ensures
        0 < pow(root(), i) % q < q,
{
    lemma_root_modulo(q);
    lemma_mod_bound(pow(root(), i), q);
    if pow(root(), i) % q == 0 {
        let back = (0x1_0000_0000 - i) as nat;
        lemma_pow_adds(root(), i, back);
        lemma_mul_mod_noop(pow(root(), i), pow(root(), back), q);
        assert(0 * (pow(root(), back) % q) == 0);
        lemma_small_mod(0, q as nat);
    }
}

/// Every divisor of the order exceeds `2^32`.
proof fn lemma_divisor_is_large(q: int)
    requires
        1 < q,
        P as int % q == 0,
    ensures
        q > 0x1_0000_0000,
{
    let exponents = set_int_range(0, 0x1_0000_0000);
    let power = |i: int| pow(root(), i as nat) % q;
    let powers = exponents.map(power);
    lemma_int_range(0, 0x1_0000_0000);
    assert(injective_on(power, exponents)) by {
        assert forall|i: int, j: int|
            exponents.contains(i) && exponents.contains(j) && #[trigger] power(i)
                == #[trigger] power(j) implies i == j by {
            if i < j {
                lemma_root_powers_differ(q, i as nat, j as nat);
            } else if j < i {
                lemma_root_powers_differ(q, j as nat, i as nat);
            }
        }
    }
    lemma_map_size(exponents, powers, power);
    assert(powers.subset_of(set_int_range(1, q))) by {
        assert forall|x: int| powers.contains(x) implies set_int_range(1, q).contains(x) by {
            let i = choose|i: int| exponents.contains(i) && power(i) == x;
            lemma_root_power_nonzero(q, i as nat);
        }
    }
    lemma_int_range(1, q);
    lemma_len_subset(powers, set_int_range(1, q));
}

/// The order of the base field is prime.
pub proof fn law_order_is_prime(q: int)
    requires
        1 < q < P,
    ensures
        P as int % q != 0,
{
    let p = P as int;
    if p % q == 0 {
        let k = p / q;
        lemma_fundamental_div_mod(p, q);
        assert(p == q * k);
        assert(1 < k < p) by (nonlinear_arith)
            requires
                p == q * k,
                1 < q < p,
        ;
        lemma_mul_is_commutative(q, k);
        lemma_mod_multiples_basic(q, k);
        lemma_divisor_is_large(q);
        lemma_divisor_is_large(k);
        assert(q * k >= 0x1_0000_0000 * 0x1_0000_0000) by (nonlinear_arith)
            requires
                q >= 0x1_0000_0000,
                k >= 0x1_0000_0000,
        ;
    }
}

/// Every number that the order does not divide has an inverse modulo the order.
proof fn lemma_inverse_exists(a: int) -> (b: int)
    requires
        0 < a < P,
    ensures
        (a * b) % (P as int) == 1,
    decreases a,
{
    let p = P as int;
    if a == 1 {
        1
    } else {
        law_order_is_prime(a);
        let q = p / a;
        let rest = p % a;
        lemma_fundamental_div_mod(p, a);
        lemma_mod_bound(p, a);
        let c = lemma_inverse_exists(rest);
        // rest == p - a * q, so that a * (-q * c) == rest * c - p * c
        let b = -(q * c);
        assert(a * b == rest * c + p * (-c)) by (nonlinear_arith)
            requires
                p == a * q + rest,
                b == -(q * c),
        ;
        lemma_mod_multiples_vanish(-c, rest * c, p);
        b
    }
}

/// Every base element but zero has an inverse.
pub proof fn law_base_elements_have_inverses(a: Xf)
    requires
        a.canonical(),
        a.is_base(),
        a != Xf::zero(),
    ensures
        Xf::mul(Xf::inv(a), a) == Xf::one(),
        Xf::is_inverse(a, Xf::inv(a)),
{
    let b = lemma_inverse_exists(a.c0);
    let inverse = Xf { c0: b, c1: 0, c2: 0 };
    field_model::lemma_mul_commutes(Xf::reduce(inverse), a);
    field_model::lemma_mul_reduced(a, inverse);
    field_model::lemma_reduce(inverse);
    lemma_small_mod(0, P as nat);
    assert(Xf::is_inverse(a, Xf::reduce(inverse)));
}

/// Where a product with a base element other than zero is zero, the other factor is.
pub proof fn lemma_no_zero_divisor(a: Xf, b: Xf)
    requires
        a.canonical(),
        b.canonical(),
        b.is_base(),
        b != Xf::zero(),
        Xf::mul(a, b) == Xf::zero(),
    ensures
        a == Xf::zero(),
{
    law_base_elements_have_inverses(b);
    let inverse = Xf::inv(b);
    field_model::lemma_mul_commutes(inverse, b);
    field_model::lemma_mul_associates(a, b, inverse);
    field_model::lemma_mul_basics(inverse);
    field_model::lemma_mul_basics(a);
    field_model::lemma_reduce(a);
}

} // verus!
