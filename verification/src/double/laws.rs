//! What holds of the arithmetic as a whole: what it does at its edges, and that it stays next
//! to the exact result.
use vstd::prelude::*;
use vstd::arithmetic::div_mod::*;
use vstd::arithmetic::power2::*;
use crate::double;
use crate::double::worth::{
    lemma_absolute, lemma_integer_worth, lemma_itself, lemma_order, lemma_worth, size, unit_count,
};
use crate::double::{units, Double};
use crate::rounding;
use crate::rounding::INFINITE;

verus! {

/// What is computed with NaN is NaN, what is compared with it is false, and of two values it
/// gives way to the other.
pub proof fn law_nan_spreads(a: Double, b: Double)
    requires
        a.undefined() || b.undefined(),
    ensures
        a.sum(b).undefined(),
        a.difference(b).undefined(),
        a.product(b).undefined(),
        a.quotient(b).undefined(),
        !a.below(b) && !a.at_most(b) && !a.same(b),
        !b.undefined() ==> a.smaller(b) == b && a.larger(b) == b,
        !a.undefined() ==> a.smaller(b) == a && a.larger(b) == a,
{
    reveal(Double::sum);
    reveal(Double::product);
    reveal(Double::quotient);
}

/// What comes of an infinity and a finite number, and of a division by zero.
pub proof fn law_infinities(a: Double, b: Double)
    requires
        a.infinite(),
        b.finite(),
    ensures
        a.sum(b) == a && b.sum(a) == a,
        a.difference(b) == a,
        b.difference(a) == a.negated(),
        a.sum(a) == a,
        a.difference(a).undefined(),
        b.magnitude() == 0 ==> a.product(b).undefined(),
        b.magnitude() > 0 ==> a.product(b).infinite() && a.product(b).negative() == (a.negative()
            != b.negative()),
        b.quotient(a).magnitude() == 0,
        a.quotient(b).infinite(),
        a.quotient(a).undefined(),
        !a.negative() ==> b.below(a),
        a.negative() ==> a.below(b),
{
    reveal(Double::sum);
    reveal(Double::product);
    reveal(Double::quotient);
}

/// A finite number over zero is infinite on the side of the signs, and zero over zero is NaN.
pub proof fn law_division_by_zero(a: Double, b: Double)
    requires
        a.finite(),
        b.magnitude() == 0,
    ensures
        a.magnitude() == 0 ==> a.quotient(b).undefined(),
        a.magnitude() > 0 ==> a.quotient(b).infinite() && a.quotient(b).negative() == (
        a.negative() != b.negative()),
{
    reveal(Double::quotient);
}

/// A quotient of units is rounded across no magnitude.
proof fn lemma_rounded_crosses_nothing(p: nat, q: nat, magnitude: nat)
    requires
        q > 0,
        magnitude < INFINITE,
    ensures
        p <= units(magnitude) * q ==> rounding::rounded(p, q) <= magnitude,
        p >= units(magnitude) * q ==> rounding::rounded(p, q) >= magnitude,
{
    let u = units(magnitude);
    double::lemma_rounded_is_exact(magnitude);
    rounding::lemma_rounded_scales(u, 1, q);
    assert(1 * q == q) by (nonlinear_arith);
    if p <= u * q {
        rounding::lemma_rounded_is_monotone(p, u * q, q);
    }
    if p >= u * q {
        rounding::lemma_rounded_is_monotone(u * q, p, q);
    }
}

/// No number lies between the sum of two numbers and the exact sum.
pub proof fn law_sum_is_next_to_the_exact(a: Double, b: Double, other: Double)
    requires
        a.finite(),
        b.finite(),
        other.finite(),
        a.sum(b).finite(),
    ensures
        a.worth() + b.worth() <= other.worth() ==> a.sum(b).worth() <= other.worth(),
        a.worth() + b.worth() >= other.worth() ==> a.sum(b).worth() >= other.worth(),
{
    reveal(Double::sum);
    let w = unit_count();
    let e = a.value() + b.value();
    let m = other.magnitude();
    let p = if e < 0 {
        (-e) as nat
    } else {
        e as nat
    };
    lemma_pow2_pos(1074);
    lemma_worth(a);
    lemma_worth(b);
    lemma_worth(other);
    lemma_order(a.sum(b), other);
    lemma_order(other, a.sum(b));
    double::lemma_units_positive(m);
    lemma_rounded_crosses_nothing(p, 1, m);
    let (x, y, z) = (a.worth(), b.worth(), other.worth());
    assert((x + y) * w == e as real) by (nonlinear_arith)
        requires
            x * w == a.value() as real,
            y * w == b.value() as real,
            e == a.value() + b.value(),
    ;
    assert(x + y <= z <==> e <= other.value()) by (nonlinear_arith)
        requires
            (x + y) * w == e as real,
            z * w == other.value() as real,
            w > 0 as real,
    ;
    assert(x + y >= z <==> e >= other.value()) by (nonlinear_arith)
        requires
            (x + y) * w == e as real,
            z * w == other.value() as real,
            w > 0 as real,
    ;
}

/// No number lies between the size of a product and the exact one, and a product has the sign
/// of its factors.
pub proof fn law_product_is_next_to_the_exact(a: Double, b: Double, other: Double)
    requires
        a.finite(),
        b.finite(),
        other.finite(),
        !other.negative(),
        a.product(b).finite(),
    ensures
        size(a.worth()) * size(b.worth()) <= other.worth() ==> size(a.product(b).worth())
            <= other.worth(),
        size(a.worth()) * size(b.worth()) >= other.worth() ==> size(a.product(b).worth())
            >= other.worth(),
        a.product(b).negative() == (a.negative() != b.negative()),
{
    reveal(Double::product);
    let w = unit_count();
    let one = pow2(1074);
    let (ua, ub, ud) = (units(a.magnitude()), units(b.magnitude()), units(other.magnitude()));
    let r = a.product(b);
    lemma_pow2_pos(1074);
    lemma_worth(a);
    lemma_worth(b);
    lemma_worth(other);
    lemma_itself(r.worth(), 0);
    lemma_absolute(r, r.worth(), 0);
    lemma_order(r.absolute(), other);
    lemma_order(other, r.absolute());
    lemma_rounded_crosses_nothing(ua * ub, one, other.magnitude());
    let (x, y, z) = (size(a.worth()), size(b.worth()), other.worth());
    lemma_sides(x, y, z, ua, ub, ud, one);
}

proof fn lemma_sides(x: real, y: real, z: real, ua: nat, ub: nat, ud: nat, one: nat)
    requires
        one > 0,
        x * one as real == ua as real,
        y * one as real == ub as real,
        z * one as real == ud as real,
    ensures
        x * y <= z <==> ua * ub <= ud * one,
        x * y >= z <==> ua * ub >= ud * one,
{
    let w = one as real;
    let (p, q) = (ua * ub, ud * one);
    assert(p as real == ua as real * ub as real) by (nonlinear_arith)
        requires
            p == ua * ub,
    ;
    assert(q as real == ud as real * w) by (nonlinear_arith)
        requires
            q == ud * one,
            w == one as real,
    ;
    assert((x * y) * (w * w) == p as real) by (nonlinear_arith)
        requires
            x * w == ua as real,
            y * w == ub as real,
            p as real == ua as real * ub as real,
    ;
    assert(z * (w * w) == q as real) by (nonlinear_arith)
        requires
            z * w == ud as real,
            q as real == ud as real * w,
    ;
    let v = w * w;
    assert(v > 0 as real) by (nonlinear_arith)
        requires
            w > 0 as real,
            v == w * w,
    ;
    let t = x * y;
    assert((t <= z <==> t * v <= z * v) && (t >= z <==> t * v >= z * v)) by (nonlinear_arith)
        requires
            v > 0 as real,
    ;
}

/// No number lies between the size of a quotient and the exact one, and a quotient has the
/// sign of its parts.
pub proof fn law_quotient_is_next_to_the_exact(a: Double, b: Double, other: Double)
    requires
        a.finite(),
        b.finite(),
        b.magnitude() > 0,
        other.finite(),
        !other.negative(),
        a.quotient(b).finite(),
    ensures
        size(a.worth()) <= size(b.worth()) * other.worth() ==> size(a.quotient(b).worth())
            <= other.worth(),
        size(a.worth()) >= size(b.worth()) * other.worth() ==> size(a.quotient(b).worth())
            >= other.worth(),
        a.quotient(b).negative() == (a.negative() != b.negative()),
{
    reveal(Double::quotient);
    let one = pow2(1074);
    let (ua, ub, ud) = (units(a.magnitude()), units(b.magnitude()), units(other.magnitude()));
    let r = a.quotient(b);
    lemma_pow2_pos(1074);
    lemma_worth(a);
    lemma_worth(b);
    lemma_worth(other);
    lemma_itself(r.worth(), 0);
    lemma_absolute(r, r.worth(), 0);
    lemma_order(r.absolute(), other);
    lemma_order(other, r.absolute());
    double::lemma_units_positive(b.magnitude());
    lemma_rounded_crosses_nothing(ua * one, ub, other.magnitude());
    let (x, y, z) = (size(a.worth()), size(b.worth()), other.worth());
    lemma_sides(y, z, x, ub, ud, ua, one);
    assert(ub * ud == ud * ub) by (nonlinear_arith);
}

/// There is a whole number that is nearest to a number.
pub proof fn lemma_nearest_whole(a: Double) -> (n: u64)
    requires
        a.finite(),
        size(a.worth()) <= 2251799813685248 as real,
    ensures
        n <= 4503599627370496,
        n as real - 1 as real / 2 as real <= size(a.worth()),
        size(a.worth()) < n as real + 1 as real / 2 as real,
{
    let w = unit_count();
    let one = pow2(1074);
    let u = units(a.magnitude());
    let count = (2 * u + one) / (2 * one);
    let rest = (2 * u + one) % (2 * one);
    let x = size(a.worth());
    lemma_pow2_pos(1074);
    lemma_worth(a);
    lemma_fundamental_div_mod((2 * u + one) as int, (2 * one) as int);
    let (c, half) = (count as real, 1 as real / 2 as real);
    let p = count * one;
    assert(2 * p + rest == 2 * u + one) by (nonlinear_arith)
        requires
            (2 * u + one) == (2 * one) * count + rest,
            p == count * one,
    ;
    assert(p as real == c * w) by (nonlinear_arith)
        requires
            p == count * one,
            c == count as real,
            w == one as real,
    ;
    assert(c - half <= x && x < c + half) by (nonlinear_arith)
        requires
            x * w == u as real,
            p as real == c * w,
            2 * p + rest == 2 * u + one,
            0 <= rest < 2 * one,
            w == one as real,
            w > 0 as real,
            half == 1 as real / 2 as real,
    ;
    assert(c < 4503599627370496 as real);
    count as u64
}

/// A number is rounded to the whole number that is nearest to it, on its own side of zero, and
/// a half goes away from zero.
pub proof fn law_rounding_goes_to_the_nearest_whole(a: Double, n: u64)
    requires
        a.finite(),
        n <= 4503599627370496,
        n as real - 1 as real / 2 as real <= size(a.worth()),
        size(a.worth()) < n as real + 1 as real / 2 as real,
    ensures
        a.integral().negative() == a.negative(),
        size(a.integral().worth()) == n as real,
{
    reveal(Double::integral);
    reveal(Double::of_integer);
    let w = unit_count();
    let one = pow2(1074);
    let u = units(a.magnitude());
    let x = size(a.worth());
    lemma_pow2_pos(1074);
    lemma_worth(a);
    let (c, half) = (n as real, 1 as real / 2 as real);
    let p = n as nat * one;
    assert(p as real == c * w) by (nonlinear_arith)
        requires
            p == n as nat * one,
            c == n as real,
            w == one as real,
    ;
    assert(2 as real * (p as real) <= 2 as real * u as real + w && 2 as real * u as real + w
        < 2 as real * (p as real) + 2 as real * w) by (nonlinear_arith)
        requires
            x * w == u as real,
            p as real == c * w,
            w > 0 as real,
            half == 1 as real / 2 as real,
            c - half <= x,
            x < c + half,
    ;
    assert((2 * u + one) / (2 * one) == n) by (nonlinear_arith)
        requires
            2 * p <= 2 * u + one < 2 * p + 2 * one,
            p == n as nat * one,
            one > 0,
    ;
    let r = a.integral();
    let whole = Double::of_integer(n);
    lemma_integer_worth(n);
    double::lemma_integer_is_finite(n);
    lemma_worth(r);
    lemma_worth(whole);
    lemma_itself(r.worth(), 0);
    lemma_absolute(r, r.worth(), 0);
    lemma_order(r.absolute(), whole);
}

} // verus!
