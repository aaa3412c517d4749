//! What binary64 values are worth as real numbers, and how far rounding takes a result from
//! the exact one.
use vstd::prelude::*;
use vstd::arithmetic::div_mod::*;
use vstd::arithmetic::power2::*;
use crate::double;
use crate::double::{units, Double};
use crate::rounding;
use crate::rounding::{HIDDEN_BIT, INFINITE, SIGNIFICAND_LIMIT};

verus! {

/// The distance of a number from zero.
pub open spec fn size(x: real) -> real {
    if x < 0 as real {
        -x
    } else {
        x
    }
}

/// `x` is `exact` up to `n` roundings, of two to the power -52 each.
pub open spec fn near(x: real, exact: real, n: int) -> bool {
    size(x - exact) * 4503599627370496 as real <= n as real * size(exact)
}

/// How many units one is.
pub open spec fn unit_count() -> real {
    pow2(1074) as real
}

impl Double {
    /// The real number that a finite value stands for.
    pub open spec fn worth(self) -> real {
        self.value() as real / unit_count()
    }
}

/// The product of whole numbers, as a real number.
proof fn lemma_real_product(a: int, b: int)
    ensures
        (a * b) as real == a as real * b as real,
{
    assert((a * b) as real == a as real * b as real) by (nonlinear_arith);
}

/// A quotient has at least the bits that its binade calls for.
proof fn lemma_binade_reaches(p: nat, q: nat)
    requires
        q > 0,
        rounding::binade(p, q) > 0,
    ensures
        p >= q * pow2(52 + rounding::binade(p, q)),
    decreases p - q,
{
    let k = rounding::binade(p, q);
    lemma2_to64_rest();
    if k == 1 {
        assert(pow2(53) == SIGNIFICAND_LIMIT);
    } else {
        assert(2 * q <= p) by (nonlinear_arith)
            requires
                p >= q * SIGNIFICAND_LIMIT,
                q > 0,
        ;
        lemma_binade_reaches(p, 2 * q);
        let j = (k - 1) as nat;
        lemma_pow2_unfold(52 + k);
        assert((2 * q) * pow2(52 + j) == q * (2 * pow2(52 + j))) by (nonlinear_arith);
    }
}

/// What a significand is worth in its binade.
proof fn lemma_units_in_binade(significand: nat, k: nat)
    requires
        significand <= SIGNIFICAND_LIMIT,
        k > 0 ==> significand >= HIDDEN_BIT,
    ensures
        units(k * (HIDDEN_BIT as nat) + significand) == significand * pow2(k),
    decreases k,
{
    let h = HIDDEN_BIT as nat;
    lemma2_to64();
    if k == 0 {
        double::lemma_units_of_small(significand);
        assert(significand * 1 == significand) by (nonlinear_arith);
    } else {
        let j = (k - 1) as nat;
        lemma_units_in_binade(significand, j);
        double::lemma_units_double(j * h + significand);
        assert(j * h + significand + h == k * h + significand) by (nonlinear_arith)
            requires
                k == j + 1,
        ;
        lemma_pow2_unfold(k);
        assert(2 * (significand * pow2(j)) == significand * (2 * pow2(j))) by (nonlinear_arith);
    }
}

/// A rounded quotient is off by no more than half a step of its size, or by half a unit.
proof fn lemma_rounding_error(p: nat, q: nat)
    requires
        q > 0,
        rounding::rounded(p, q) < INFINITE,
    ensures
        ({
            let u = units(rounding::rounded(p, q));
            let w = pow2(53) as int;
            ||| (u * q - p) * w <= p && (p - u * q) * w <= p
            ||| 2 * (u * q - p) <= q && 2 * (p - u * q) <= q
        }),
{
    let k = rounding::binade(p, q);
    let w = pow2(k);
    let g = q * w;
    let s = rounding::nearest(p, g);
    let u = units(rounding::rounded(p, q));
    let floor = p / g;
    let rest = p % g;
    lemma_pow2_pos(k);
    assert(g > 0) by (nonlinear_arith)
        requires
            q > 0,
            w > 0,
            g == q * w,
    ;
    lemma_fundamental_div_mod(p as int, g as int);
    rounding::lemma_significand_bounded(p, q);
    lemma2_to64_rest();
    if k > 0 {
        lemma_binade_reaches(p, q);
        lemma_pow2_adds(52, k);
        assert(floor >= HIDDEN_BIT) by (nonlinear_arith)
            requires
                p >= q * (pow2(52) * w),
                pow2(52) == HIDDEN_BIT,
                g == q * w,
                p == g * floor + rest,
                0 <= rest < g,
        ;
    }
    lemma_units_in_binade(s, k);
    assert(u * q == s * g) by (nonlinear_arith)
        requires
            u == s * w,
            g == q * w,
    ;
    let off = u * q - p;
    assert(2 * off <= g && -2 * off <= g) by (nonlinear_arith)
        requires
            off == s * g - p,
            p == g * floor + rest,
            0 <= rest < g,
            (s == floor && 2 * rest <= g) || (s == floor + 1 && 2 * rest >= g),
    ;
    if k > 0 {
        let half = pow2(52) as int;
        lemma_pow2_unfold(53);
        assert(g * half <= p) by (nonlinear_arith)
            requires
                p >= q * (pow2(52) * w),
                g == q * w,
                half == pow2(52),
        ;
        assert(off * (2 * half) <= p && (-off) * (2 * half) <= p) by (nonlinear_arith)
            requires
                2 * off <= g,
                -2 * off <= g,
                g * half <= p,
                half > 0,
        ;
    } else {
        lemma2_to64();
        assert(q * 1 == q) by (nonlinear_arith);
    }
}

/// The same of real numbers.
proof fn lemma_real_error(p: nat, q: nat)
    requires
        q > 0,
        rounding::rounded(p, q) < INFINITE,
    ensures
        ({
            let u = units(rounding::rounded(p, q)) as real;
            let x = p as real / q as real;
            ||| size(u - x) * 9007199254740992 as real <= x
            ||| size(u - x) * 2 as real <= 1 as real
        }),
        ({
            let u = units(rounding::rounded(p, q)) as real;
            q == 1 ==> size(u - p as real) * 9007199254740992 as real <= p as real
        }),
{
    lemma_rounding_error(p, q);
    lemma2_to64_rest();
    let un = units(rounding::rounded(p, q));
    let u = un as real;
    let x = p as real / q as real;
    let pr = p as real;
    let qr = q as real;
    let off = u * qr - pr;
    lemma_real_product(un as int, q as int);
    assert(off == (un * q - p) as real);
    assert(x * qr == pr) by (nonlinear_arith)
        requires
            x == pr / qr,
            qr > 0 as real,
    ;
    assert((u - x) * qr == off) by (nonlinear_arith)
        requires
            off == u * qr - pr,
            x * qr == pr,
    ;
    let w = 9007199254740992 as real;
    if (un * q - p) * (pow2(53) as int) <= p && (p - un * q) * (pow2(53) as int) <= p {
        assert(off * w <= pr && -off * w <= pr);
        assert((u - x) * w <= x && -(u - x) * w <= x) by (nonlinear_arith)
            requires
                (u - x) * qr == off,
                x * qr == pr,
                off * w <= pr,
                -off * w <= pr,
                qr > 0 as real,
        ;
    } else {
        assert(2 as real * off <= qr && -(2 as real) * off <= qr);
        assert(2 as real * (u - x) <= 1 as real && -(2 as real) * (u - x) <= 1 as real)
            by (nonlinear_arith)
            requires
                (u - x) * qr == off,
                2 as real * off <= qr,
                -(2 as real) * off <= qr,
                qr > 0 as real,
        ;
        if q == 1 {
            assert(un * 1 == un) by (nonlinear_arith);
            assert(un == p);
            assert(pr >= 0 as real);
        }
    }
}

/// A number between two to the power `-n` and two to the power `n`, on either side of zero.
pub open spec fn sized(x: real, n: nat) -> bool {
    &&& 1 as real <= size(x) * pow2(n) as real
    &&& size(x) <= pow2(n) as real
}

proof fn lemma_unit_count()
    ensures
        unit_count() > 0 as real,
{
    lemma_pow2_pos(1074);
}

/// What a finite number is worth, in units.
pub proof fn lemma_worth(a: Double)
    requires
        a.finite(),
    ensures
        a.worth() * unit_count() == a.value() as real,
        size(a.worth()) * unit_count() == units(a.magnitude()) as real,
        a.worth() > 0 as real <==> a.rank() > 0,
        a.worth() < 0 as real <==> a.rank() < 0,
        a.worth() == 0 as real <==> a.magnitude() == 0,
{
    let w = unit_count();
    let v = a.value() as real;
    let x = a.worth();
    lemma_unit_count();
    double::lemma_units_positive(a.magnitude());
    assert(x * w == v) by (nonlinear_arith)
        requires
            x == v / w,
            w > 0 as real,
    ;
    lemma_size_scales(x, w);
    assert(x > 0 as real <==> v > 0 as real) by (nonlinear_arith)
        requires
            x * w == v,
            w > 0 as real,
    ;
    assert(x < 0 as real <==> v < 0 as real) by (nonlinear_arith)
        requires
            x * w == v,
            w > 0 as real,
    ;
}

/// The order of finite numbers is that of what they are worth.
pub proof fn lemma_order(a: Double, b: Double)
    requires
        a.finite(),
        b.finite(),
    ensures
        a.below(b) <==> a.worth() < b.worth(),
        a.at_most(b) <==> a.worth() <= b.worth(),
        a.same(b) <==> a.worth() == b.worth(),
{
    let w = unit_count();
    let x = a.worth();
    let y = b.worth();
    lemma_unit_count();
    lemma_worth(a);
    lemma_worth(b);
    double::law_order_is_exact(a, b);
    double::lemma_same_by_value(a, b);
    assert(x < y <==> x * w < y * w) by (nonlinear_arith)
        requires
            w > 0 as real,
    ;
    assert(x == y <==> x * w == y * w) by (nonlinear_arith)
        requires
            w > 0 as real,
    ;
}

/// The negative of a number is worth the negative.
pub proof fn lemma_negated(a: Double)
    ensures
        a.finite() ==> a.negated().finite(),
        a.negated().worth() == -a.worth(),
        a.negated().rank() == -a.rank(),
        a.negated().undefined() == a.undefined(),
{
    let w = unit_count();
    lemma_unit_count();
    assert(a.negated().magnitude() == a.magnitude() && a.negated().negative() == !a.negative());
    double::lemma_units_positive(a.magnitude());
    assert(a.negated().value() == -a.value());
    let v = a.value() as real;
    assert((-v) / w == -(v / w)) by (nonlinear_arith)
        requires
            w > 0 as real,
    ;
}

/// Whole numbers of up to 53 bits are worth themselves.
pub proof fn lemma_integer_worth(n: u64)
    requires
        n <= SIGNIFICAND_LIMIT,
    ensures
        Double::of_integer(n).finite(),
        Double::of_integer(n).worth() == n as real,
{
    reveal(Double::of_integer);
    double::lemma_integer_is_finite(n);
    let w = pow2(1074);
    lemma_pow2_pos(1074);
    let p = n as nat * w;
    let m = Double::of_integer(n).magnitude();
    lemma_integer_units(n);
    assert(units(m) == p);
    lemma_worth(Double::of_integer(n));
    lemma_real_product(n as int, w as int);
    let x = Double::of_integer(n).worth();
    assert(x == n as real) by (nonlinear_arith)
        requires
            x * unit_count() == n as real * unit_count(),
            unit_count() > 0 as real,
    ;
}

/// The units of a whole number of up to 53 bits.
proof fn lemma_integer_units(n: u64)
    requires
        n <= SIGNIFICAND_LIMIT,
    ensures
        units(Double::of_integer(n).magnitude()) == n as nat * pow2(1074),
{
    reveal(Double::of_integer);
    let p = n as nat * pow2(1074);
    let k = rounding::binade(p, 1);
    lemma2_to64();
    lemma2_to64_rest();
    lemma_pow2_pos(1074);
    double::lemma_integer_is_finite(n);
    lemma_pow2_adds(53, 1074);
    assert(p <= pow2(1127)) by (nonlinear_arith)
        requires
            p == n * pow2(1074),
            n <= pow2(53),
            pow2(1127) == pow2(53) * pow2(1074),
            pow2(1074) > 0,
    ;
    lemma_pow2_unfold(1128);
    rounding::lemma_binade_bounded(p, 1, 1075);
    if k > 1074 {
        lemma_binade_reaches(p, 1);
        assert(p == pow2(1127));
        let m = pow2(52);
        lemma_pow2_adds(52, 1075);
        rounding::lemma_rounded_keeps_significand(m, 1075);
        lemma_units_in_binade(m, 1075);
        assert(m * pow2(1075) == p);
    } else {
        let j = (1074 - k) as nat;
        let s = n as nat * pow2(j);
        lemma_pow2_adds(j, k);
        assert(s * pow2(k) == p) by (nonlinear_arith)
            requires
                s == n * pow2(j),
                pow2(1074) == pow2(j) * pow2(k),
                p == n * pow2(1074),
        ;
        lemma_pow2_pos(k);
        rounding::lemma_significand_bounded(p, 1);
        rounding::lemma_nearest_scales(s, 1, pow2(k));
        assert(1 * pow2(k) == pow2(k)) by (nonlinear_arith);
        assert(rounding::nearest(s, 1) == s);
        if k > 0 {
            lemma_binade_reaches(p, 1);
            lemma_pow2_adds(52, k);
            assert(s >= HIDDEN_BIT) by (nonlinear_arith)
                requires
                    s * pow2(k) >= 1 * (pow2(52) * pow2(k)),
                    pow2(52) == HIDDEN_BIT,
                    pow2(k) > 0,
            ;
        }
        lemma_units_in_binade(s, k);
    }
}

/// A sum is off by no more than half a step of its size.
pub proof fn lemma_sum_error(a: Double, b: Double)
    requires
        a.finite(),
        b.finite(),
        a.sum(b).finite(),
    ensures
        size(a.sum(b).worth() - (a.worth() + b.worth())) * 9007199254740992 as real <= size(
            a.worth() + b.worth(),
        ),
{
    reveal(Double::sum);
    let w = unit_count();
    let r = a.sum(b);
    let e = a.value() + b.value();
    let p = if e < 0 {
        (-e) as nat
    } else {
        e as nat
    };
    lemma_unit_count();
    lemma_worth(a);
    lemma_worth(b);
    lemma_worth(r);
    double::lemma_units_positive(0);
    if e != 0 {
        lemma_real_error(p, 1);
    }
    let x = a.worth() + b.worth();
    assert(x * w == e as real) by (nonlinear_arith)
        requires
            x == a.worth() + b.worth(),
            a.worth() * w == a.value() as real,
            b.worth() * w == b.value() as real,
            e as real == a.value() as real + b.value() as real,
    ;
    let d = r.worth() - x;
    let f = r.value() as real - e as real;
    assert(d * w == f) by (nonlinear_arith)
        requires
            d == r.worth() - x,
            r.worth() * w == r.value() as real,
            x * w == e as real,
            f == r.value() as real - e as real,
    ;
    assert(size(f) * 9007199254740992 as real <= size(e as real));
    lemma_scaled_bound(d, x, w, f, e as real, 9007199254740992 as real);
}

proof fn lemma_scaled_bound(d: real, x: real, w: real, f: real, e: real, c: real)
    requires
        w > 0 as real,
        d * w == f,
        x * w == e,
        size(f) * c <= size(e),
    ensures
        size(d) * c <= size(x),
{
    lemma_size_scales(d, w);
    lemma_size_scales(x, w);
    let sd = size(d);
    let sx = size(x);
    assert(sd * c <= sx) by (nonlinear_arith)
        requires
            (sd * w) * c <= sx * w,
            w > 0 as real,
    ;
}

pub proof fn lemma_size_scales(x: real, w: real)
    requires
        w >= 0 as real,
    ensures
        size(x * w) == size(x) * w,
{
    assert(x < 0 as real ==> x * w <= 0 as real) by (nonlinear_arith)
        requires
            w >= 0 as real,
    ;
    assert(x >= 0 as real ==> x * w >= 0 as real) by (nonlinear_arith)
        requires
            w >= 0 as real,
    ;
    assert((-x) * w == -(x * w)) by (nonlinear_arith);
}

/// The size of a product is the product of the sizes.
pub proof fn lemma_size_of_product(x: real, y: real)
    ensures
        size(x * y) == size(x) * size(y),
{
    if y >= 0 as real {
        lemma_size_scales(x, y);
    } else {
        lemma_size_scales(x, -y);
        assert(x * (-y) == -(x * y)) by (nonlinear_arith);
    }
}

/// A product is off by no more than half a step of its size, or by half a unit.
pub proof fn lemma_product_error(a: Double, b: Double)
    requires
        a.finite(),
        b.finite(),
        a.product(b).finite(),
    ensures
        ({
            let d = size(a.product(b).worth() - a.worth() * b.worth());
            ||| d * 9007199254740992 as real <= size(a.worth() * b.worth())
            ||| d * unit_count() * 2 as real <= 1 as real
        }),
        a.product(b).negative() == (a.negative() != b.negative()),
{
    reveal(Double::product);
    let w = unit_count();
    let r = a.product(b);
    let ua = units(a.magnitude());
    let ub = units(b.magnitude());
    let p = ua * ub;
    let q = pow2(1074);
    lemma_unit_count();
    lemma_worth(a);
    lemma_worth(b);
    lemma_worth(r);
    lemma_real_error(p, q);
    assert(r.magnitude() == rounding::rounded(p, q));
    let x = a.worth() * b.worth();
    let sx = size(x);
    lemma_size_of_product(a.worth(), b.worth());
    lemma_real_product(ua as int, ub as int);
    let sa = size(a.worth());
    let sb = size(b.worth());
    let y = p as real / q as real;
    assert(y == sx * w) by (nonlinear_arith)
        requires
            y == p as real / w,
            p as real == ua as real * ub as real,
            sa * w == ua as real,
            sb * w == ub as real,
            sx == sa * sb,
            w > 0 as real,
    ;
    let sr = size(r.worth());
    lemma_same_side(a, b, r);
    let d = sr - sx;
    assert(size(r.worth() - x) == size(d));
    lemma_size_scales(d, w);
    assert(d * w == sr * w - sx * w) by (nonlinear_arith)
        requires
            d == sr - sx,
    ;
    let sd = size(d);
    if size(units(r.magnitude()) as real - y) * 9007199254740992 as real <= y {
        assert(sd * 9007199254740992 as real <= sx) by (nonlinear_arith)
            requires
                sd * w * 9007199254740992 as real <= sx * w,
                w > 0 as real,
        ;
    }
}

/// A product or a quotient lies on the side of zero that its parts call for.
proof fn lemma_same_side(a: Double, b: Double, r: Double)
    requires
        a.finite(),
        b.finite(),
        r.finite(),
        r.negative() == (a.negative() != b.negative()),
    ensures
        ({
            let x = a.worth() * b.worth();
            size(r.worth() - x) == size(size(r.worth()) - size(x))
        }),
{
    let wa = a.worth();
    let wb = b.worth();
    let x = wa * wb;
    lemma_worth(a);
    lemma_worth(b);
    lemma_worth(r);
    lemma_signs(a);
    lemma_signs(b);
    lemma_signs(r);
    assert(a.negative() == b.negative() ==> x >= 0 as real) by (nonlinear_arith)
        requires
            x == wa * wb,
            a.negative() ==> wa <= 0 as real,
            !a.negative() ==> wa >= 0 as real,
            b.negative() ==> wb <= 0 as real,
            !b.negative() ==> wb >= 0 as real,
    ;
    assert(a.negative() != b.negative() ==> x <= 0 as real) by (nonlinear_arith)
        requires
            x == wa * wb,
            a.negative() ==> wa <= 0 as real,
            !a.negative() ==> wa >= 0 as real,
            b.negative() ==> wb <= 0 as real,
            !b.negative() ==> wb >= 0 as real,
    ;
}

/// The sign of a number is that of its worth.
pub proof fn lemma_signs(a: Double)
    requires
        a.finite(),
    ensures
        a.negative() ==> a.worth() <= 0 as real,
        !a.negative() ==> a.worth() >= 0 as real,
{
    lemma_worth(a);
}

/// A quotient is off by no more than half a step of its size, or by half a unit.
pub proof fn lemma_quotient_error(a: Double, b: Double)
    requires
        a.finite(),
        b.finite(),
        b.magnitude() > 0,
        a.quotient(b).finite(),
    ensures
        ({
            let d = size(a.quotient(b).worth() - a.worth() / b.worth());
            ||| d * 9007199254740992 as real <= size(a.worth() / b.worth())
            ||| d * unit_count() * 2 as real <= 1 as real
        }),
        a.quotient(b).negative() == (a.negative() != b.negative()),
{
    reveal(Double::quotient);
    let w = unit_count();
    let r = a.quotient(b);
    let ua = units(a.magnitude());
    let ub = units(b.magnitude());
    let p = ua * pow2(1074);
    let q = ub;
    lemma_unit_count();
    lemma_worth(a);
    lemma_worth(b);
    lemma_worth(r);
    double::lemma_units_positive(b.magnitude());
    lemma_real_error(p, q);
    assert(r.magnitude() == rounding::rounded(p, q));
    let wa = a.worth();
    let wb = b.worth();
    let x = wa / wb;
    let sx = size(x);
    assert(wb != 0 as real);
    assert(x * wb == wa) by (nonlinear_arith)
        requires
            x == wa / wb,
            wb != 0 as real,
    ;
    lemma_size_of_product(x, wb);
    lemma_real_product(ua as int, pow2(1074) as int);
    let sa = size(wa);
    let sb = size(wb);
    let y = p as real / q as real;
    assert(y == sx * w) by (nonlinear_arith)
        requires
            y == p as real / q as real,
            p as real == ua as real * w,
            sa * w == ua as real,
            sb * w == q as real,
            sa == sx * sb,
            q as real > 0 as real,
            w > 0 as real,
    ;
    let sr = size(r.worth());
    lemma_signs(a);
    lemma_signs(b);
    lemma_signs(r);
    assert(a.negative() == b.negative() ==> x >= 0 as real) by (nonlinear_arith)
        requires
            x * wb == wa,
            wb != 0 as real,
            a.negative() ==> wa <= 0 as real,
            !a.negative() ==> wa >= 0 as real,
            b.negative() ==> wb <= 0 as real,
            !b.negative() ==> wb >= 0 as real,
    ;
    assert(a.negative() != b.negative() ==> x <= 0 as real) by (nonlinear_arith)
        requires
            x * wb == wa,
            wb != 0 as real,
            a.negative() ==> wa <= 0 as real,
            !a.negative() ==> wa >= 0 as real,
            b.negative() ==> wb <= 0 as real,
            !b.negative() ==> wb >= 0 as real,
    ;
    let d = sr - sx;
    assert(size(r.worth() - x) == size(d));
    lemma_size_scales(d, w);
    assert(d * w == sr * w - sx * w) by (nonlinear_arith)
        requires
            d == sr - sx,
    ;
    let sd = size(d);
    if size(units(r.magnitude()) as real - y) * 9007199254740992 as real <= y {
        assert(sd * 9007199254740992 as real <= sx) by (nonlinear_arith)
            requires
                sd * w * 9007199254740992 as real <= sx * w,
                w > 0 as real,
        ;
    }
}

/// Quotients of up to two to the power 2074 units are rounded to finite magnitudes.
proof fn lemma_rounded_is_finite(p: nat, q: nat)
    requires
        q > 0,
        p <= q * pow2(2074),
    ensures
        rounding::rounded(p, q) < INFINITE,
{
    let top = pow2(2074);
    lemma2_to64_rest();
    lemma_pow2_adds(52, 2022);
    rounding::lemma_rounded_is_monotone(p, q * top, q);
    rounding::lemma_rounded_scales(top, 1, q);
    assert(top * q == q * top && 1 * q == q) by (nonlinear_arith);
    rounding::lemma_rounded_keeps_significand(HIDDEN_BIT as nat, 2022);
}

/// What is at most two to the power 1000 in size has its bounds in units.
proof fn lemma_units_bound(s: real, u: nat)
    requires
        s * unit_count() == u as real,
        s <= pow2(1000) as real,
    ensures
        u <= pow2(2074),
{
    let w = unit_count();
    lemma_unit_count();
    lemma_pow2_adds(1000, 1074);
    lemma_real_product(pow2(1000) as int, pow2(1074) as int);
    assert(s * w <= pow2(1000) as real * w) by (nonlinear_arith)
        requires
            s <= pow2(1000) as real,
            w > 0 as real,
    ;
}

/// A sum of no more than two to the power 1000 is finite.
pub proof fn lemma_sum_is_finite(a: Double, b: Double)
    requires
        a.finite(),
        b.finite(),
        size(a.worth() + b.worth()) <= pow2(1000) as real,
    ensures
        a.sum(b).finite(),
{
    reveal(Double::sum);
    let w = unit_count();
    let e = a.value() + b.value();
    let x = a.worth() + b.worth();
    lemma_unit_count();
    lemma_worth(a);
    lemma_worth(b);
    assert(x * w == e as real) by (nonlinear_arith)
        requires
            x == a.worth() + b.worth(),
            a.worth() * w == a.value() as real,
            b.worth() * w == b.value() as real,
            e as real == a.value() as real + b.value() as real,
    ;
    lemma_size_scales(x, w);
    let p = if e < 0 {
        (-e) as nat
    } else {
        e as nat
    };
    assert(size(e as real) == p as real);
    lemma_units_bound(size(x), p);
    assert(1 * pow2(2074) == pow2(2074)) by (nonlinear_arith);
    lemma_rounded_is_finite(p, 1);
}

/// A product of no more than two to the power 1000 is finite.
pub proof fn lemma_product_is_finite(a: Double, b: Double)
    requires
        a.finite(),
        b.finite(),
        size(a.worth() * b.worth()) <= pow2(1000) as real,
    ensures
        a.product(b).finite(),
{
    reveal(Double::product);
    let w = unit_count();
    let ua = units(a.magnitude());
    let ub = units(b.magnitude());
    let p = ua * ub;
    let q = pow2(1074);
    let top = pow2(2074);
    lemma_unit_count();
    lemma_worth(a);
    lemma_worth(b);
    lemma_size_of_product(a.worth(), b.worth());
    lemma_real_product(ua as int, ub as int);
    lemma_pow2_adds(1000, 1074);
    lemma_real_product(pow2(1000) as int, pow2(1074) as int);
    lemma_real_product(q as int, top as int);
    let sa = size(a.worth());
    let sb = size(b.worth());
    let c = pow2(1000) as real;
    assert(p as real <= w * (c * w)) by (nonlinear_arith)
        requires
            p as real == ua as real * ub as real,
            sa * w == ua as real,
            sb * w == ub as real,
            sa * sb <= c,
            w > 0 as real,
    ;
    assert(p <= q * top);
    lemma_pow2_pos(1074);
    lemma_rounded_is_finite(p, q);
}

/// A quotient of no more than two to the power 1000 is finite.
pub proof fn lemma_quotient_is_finite(a: Double, b: Double)
    requires
        a.finite(),
        b.finite(),
        b.magnitude() > 0,
        size(a.worth() / b.worth()) <= pow2(1000) as real,
    ensures
        a.quotient(b).finite(),
{
    reveal(Double::quotient);
    let w = unit_count();
    let ua = units(a.magnitude());
    let q = units(b.magnitude());
    let p = ua * pow2(1074);
    let top = pow2(2074);
    lemma_unit_count();
    lemma_worth(a);
    lemma_worth(b);
    double::lemma_units_positive(b.magnitude());
    let wa = a.worth();
    let wb = b.worth();
    let x = wa / wb;
    assert(x * wb == wa) by (nonlinear_arith)
        requires
            x == wa / wb,
            wb != 0 as real,
    ;
    lemma_size_of_product(x, wb);
    lemma_real_product(ua as int, pow2(1074) as int);
    lemma_pow2_adds(1000, 1074);
    lemma_real_product(pow2(1000) as int, pow2(1074) as int);
    lemma_real_product(q as int, top as int);
    let sa = size(wa);
    let sb = size(wb);
    let sx = size(x);
    let c = pow2(1000) as real;
    assert(p as real <= q as real * (c * w)) by (nonlinear_arith)
        requires
            p as real == ua as real * w,
            sa * w == ua as real,
            sb * w == q as real,
            sa == sx * sb,
            sx <= c,
            sb >= 0 as real,
            w > 0 as real,
    ;
    assert(p <= q * top);
    lemma_rounded_is_finite(p, q);
}

/// The size of a sum is at most the sum of the sizes.
proof fn lemma_triangle(x: real, y: real)
    ensures
        size(x + y) <= size(x) + size(y),
        size(x - y) <= size(x) + size(y),
{
}

/// Nearness of the factors gives nearness of the product.
proof fn lemma_near_product(p: real, q: real, x: real, y: real, n: int, m: int)
    requires
        0 <= n <= 64,
        0 <= m <= 64,
        near(p, x, n),
        near(q, y, m),
    ensures
        size(p * q - x * y) * 18014398509481984 as real <= (4 * (n + m) + 1) as real * size(x * y),
{
    let c = 4503599627370496 as real;
    let a = p - x;
    let b = q - y;
    let (sa, sb, sx, sy) = (size(a), size(b), size(x), size(y));
    let (nn, mm) = (n as real, m as real);
    let d = p * q - x * y;
    assert(d == a * y + x * b + a * b) by (nonlinear_arith)
        requires
            d == p * q - x * y,
            a == p - x,
            b == q - y,
    ;
    lemma_triangle(a * y + x * b, a * b);
    lemma_triangle(a * y, x * b);
    lemma_size_of_product(a, y);
    lemma_size_of_product(x, b);
    lemma_size_of_product(a, b);
    lemma_size_of_product(x, y);
    let s = sx * sy;
    assert((sa * sy) * c <= nn * s) by (nonlinear_arith)
        requires
            sa * c <= nn * sx,
            sy >= 0 as real,
            s == sx * sy,
    ;
    assert((sx * sb) * c <= mm * s) by (nonlinear_arith)
        requires
            sb * c <= mm * sy,
            sx >= 0 as real,
            s == sx * sy,
    ;
    assert((sa * sb) * (c * c) <= (nn * mm) * s) by (nonlinear_arith)
        requires
            sa * c <= nn * sx,
            sb * c <= mm * sy,
            sa >= 0 as real,
            sb >= 0 as real,
            sx >= 0 as real,
            sy >= 0 as real,
            nn >= 0 as real,
            c > 0 as real,
            s == sx * sy,
    ;
    assert(s >= 0 as real) by (nonlinear_arith)
        requires
            s == sx * sy,
            sx >= 0 as real,
            sy >= 0 as real,
    ;
    assert(nn * mm <= 4096 as real) by (nonlinear_arith)
        requires
            0 as real <= nn <= 64 as real,
            0 as real <= mm <= 64 as real,
    ;
    assert((nn * mm) * s <= 4096 as real * s) by (nonlinear_arith)
        requires
            nn * mm <= 4096 as real,
            s >= 0 as real,
    ;
    let t = sa * sb;
    assert(t * c * 4 as real <= s);
    assert((4 * (n + m) + 1) as real == 4 as real * (nn + mm) + 1 as real);
    assert((4 as real * (nn + mm) + 1 as real) * s == 4 as real * (nn * s) + 4 as real * (mm * s)
        + s) by (nonlinear_arith);
}

/// Nearness of dividend and divisor gives nearness of the quotient.
proof fn lemma_near_quotient(p: real, q: real, x: real, y: real, n: int, m: int)
    requires
        0 <= n <= 64,
        0 <= m <= 64,
        near(p, x, n),
        near(q, y, m),
        y != 0 as real,
    ensures
        q != 0 as real,
        size(p / q - x / y) * 18014398509481984 as real <= (4 * (n + m) + 1) as real * size(x / y),
{
    let c = 4503599627370496 as real;
    let a = p - x;
    let b = q - y;
    let (nn, mm) = (n as real, m as real);
    let sy = size(y);
    let sq = size(q);
    let sb = size(b);
    let sa = size(a);
    let sx = size(x);
    assert(mm * sy <= 64 as real * sy) by (nonlinear_arith)
        requires
            mm <= 64 as real,
            sy >= 0 as real,
    ;
    lemma_triangle(q, b);
    assert(sy <= sq + sb);
    assert(sq > 0 as real);
    let z = x / y;
    let v = p / q;
    assert(z * y == x) by (nonlinear_arith)
        requires
            z == x / y,
            y != 0 as real,
    ;
    assert(v * q == p) by (nonlinear_arith)
        requires
            v == p / q,
            q != 0 as real,
    ;
    let g = v - z;
    assert(g * q == a - z * b) by (nonlinear_arith)
        requires
            g == v - z,
            v * q == p,
            z * y == x,
            a == p - x,
            b == q - y,
    ;
    lemma_size_of_product(g, q);
    lemma_triangle(a, z * b);
    lemma_size_of_product(z, b);
    lemma_size_of_product(z, y);
    let sz = size(z);
    let sg = size(g);
    let t = sz * sy;
    assert((sz * sb) * c <= mm * t) by (nonlinear_arith)
        requires
            sb * c <= mm * sy,
            sz >= 0 as real,
            t == sz * sy,
    ;
    assert(sa * c <= nn * t);
    let k = nn + mm;
    assert((sg * sq) * c <= k * t) by (nonlinear_arith)
        requires
            sg * sq <= sa + sz * sb,
            sa * c <= nn * t,
            (sz * sb) * c <= mm * t,
            k == nn + mm,
            c > 0 as real,
    ;
    // The divisor is no smaller than nearly the exact one
    assert(sy * (c - 64 as real) <= sq * c);
    assert((sg * (c - 64 as real)) * sq <= (k * sz) * sq) by (nonlinear_arith)
        requires
            (sg * sq) * c <= k * (sz * sy),
            sy * (c - 64 as real) <= sq * c,
            sz >= 0 as real,
            k >= 0 as real,
            c == 4503599627370496 as real,
    ;
    assert(sg * (c - 64 as real) <= k * sz) by (nonlinear_arith)
        requires
            (sg * (c - 64 as real)) * sq <= (k * sz) * sq,
            sq > 0 as real,
    ;
    assert(k * sz <= 128 as real * sz) by (nonlinear_arith)
        requires
            k <= 128 as real,
            sz >= 0 as real,
    ;
    assert((4 * (n + m) + 1) as real == 4 as real * k + 1 as real);
    assert((4 as real * k + 1 as real) * sz == 4 as real * (k * sz) + sz) by (nonlinear_arith);
}

/// One more rounding.
proof fn lemma_one_rounding(r: real, p: real, x: real, k: int)
    requires
        0 <= k <= 128,
        sized(x, 900),
        size(p - x) * 18014398509481984 as real <= (4 * k + 1) as real * size(x),
        size(r - p) * 9007199254740992 as real <= size(p) || size(r - p) * unit_count() * 2 as real
            <= 1 as real,
    ensures
        near(r, x, k + 1),
{
    let c = 4503599627370496 as real;
    let sx = size(x);
    let sp = size(p);
    let d = size(r - p);
    let e = size(p - x);
    let kk = k as real;
    lemma_triangle(r - p, p - x);
    assert(r - x == (r - p) + (p - x));
    lemma_triangle(x, p - x);
    assert((4 * k + 1) as real == 4 as real * kk + 1 as real);
    assert((4 as real * kk + 1 as real) * sx == 4 as real * (kk * sx) + sx) by (nonlinear_arith);
    assert((k + 1) as real * sx == kk * sx + sx) by (nonlinear_arith)
        requires
            (k + 1) as real == kk + 1 as real,
    ;
    assert(kk * sx <= 128 as real * sx) by (nonlinear_arith)
        requires
            kk <= 128 as real,
            sx >= 0 as real,
    ;
    if d * 9007199254740992 as real <= sp {
    } else {
        let w = unit_count();
        let big = pow2(900) as real;
        lemma_pow2_adds(900, 174);
        lemma_real_product(pow2(900) as int, pow2(174) as int);
        lemma_pow2_strictly_increases(64, 174);
        lemma2_to64();
        lemma_pow2_pos(900);
        let more = pow2(174) as real;
        assert(d * more * 2 as real <= sx) by (nonlinear_arith)
            requires
                d * w * 2 as real <= 1 as real,
                w == big * more,
                1 as real <= sx * big,
                big > 0 as real,
                more > 0 as real,
                d >= 0 as real,
        ;
        assert(d * 18446744073709551616 as real <= d * more) by (nonlinear_arith)
            requires
                more >= 18446744073709551616 as real,
                d >= 0 as real,
        ;
    }
}

proof fn lemma_sized_is_bounded(x: real, p: real, k: int)
    requires
        0 <= k <= 128,
        sized(x, 900),
        size(p - x) * 18014398509481984 as real <= (4 * k + 1) as real * size(x),
    ensures
        size(p) <= pow2(1000) as real,
{
    let sx = size(x);
    let kk = (4 * k + 1) as real;
    lemma_triangle(x, p - x);
    assert(kk * sx <= 513 as real * sx) by (nonlinear_arith)
        requires
            kk <= 513 as real,
            sx >= 0 as real,
    ;
    lemma_pow2_unfold(901);
    lemma_pow2_strictly_increases(901, 1000);
}

/// A product of near factors is near the exact product.
pub proof fn lemma_times(a: Double, b: Double, x: real, y: real, n: int, m: int)
    requires
        a.finite(),
        b.finite(),
        0 <= n <= 64,
        0 <= m <= 64,
        near(a.worth(), x, n),
        near(b.worth(), y, m),
        sized(x * y, 900),
    ensures
        a.product(b).finite(),
        near(a.product(b).worth(), x * y, n + m + 1),
{
    lemma_near_product(a.worth(), b.worth(), x, y, n, m);
    lemma_sized_is_bounded(x * y, a.worth() * b.worth(), n + m);
    lemma_product_is_finite(a, b);
    lemma_product_error(a, b);
    lemma_one_rounding(a.product(b).worth(), a.worth() * b.worth(), x * y, n + m);
}

/// A quotient of near numbers is near the exact quotient.
pub proof fn lemma_over(a: Double, b: Double, x: real, y: real, n: int, m: int)
    requires
        a.finite(),
        b.finite(),
        0 <= n <= 64,
        0 <= m <= 64,
        near(a.worth(), x, n),
        near(b.worth(), y, m),
        y != 0 as real,
        sized(x / y, 900),
    ensures
        a.quotient(b).finite(),
        near(a.quotient(b).worth(), x / y, n + m + 1),
{
    lemma_near_quotient(a.worth(), b.worth(), x, y, n, m);
    lemma_worth(b);
    lemma_sized_is_bounded(x / y, a.worth() / b.worth(), n + m);
    lemma_quotient_is_finite(a, b);
    lemma_quotient_error(a, b);
    lemma_one_rounding(a.quotient(b).worth(), a.worth() / b.worth(), x / y, n + m);
}

/// A sum of two numbers is near the exact sum.
pub proof fn lemma_plus(a: Double, b: Double)
    requires
        a.finite(),
        b.finite(),
        size(a.worth() + b.worth()) <= pow2(1000) as real,
    ensures
        a.sum(b).finite(),
        near(a.sum(b).worth(), a.worth() + b.worth(), 1),
{
    lemma_sum_is_finite(a, b);
    lemma_sum_error(a, b);
    let t = size(a.worth() + b.worth());
    assert(1int as real * t == t) by (nonlinear_arith);
}

/// A difference of two numbers is near the exact difference.
pub proof fn lemma_minus(a: Double, b: Double)
    requires
        a.finite(),
        b.finite(),
        size(a.worth() - b.worth()) <= pow2(1000) as real,
    ensures
        a.difference(b).finite(),
        near(a.difference(b).worth(), a.worth() - b.worth(), 1),
{
    lemma_negated(b);
    lemma_plus(a, b.negated());
}

/// A sum of near numbers not below zero is near the exact sum.
pub proof fn lemma_near_sum(a: Double, b: Double, x: real, y: real, n: int)
    requires
        a.finite(),
        b.finite(),
        0 <= n <= 64,
        near(a.worth(), x, n),
        near(b.worth(), y, n),
        x >= 0 as real,
        y >= 0 as real,
        x + y <= pow2(900) as real,
    ensures
        a.sum(b).finite(),
        near(a.sum(b).worth(), x + y, n + 1),
{
    let (p, q) = (a.worth(), b.worth());
    let nn = n as real;
    let t = x + y;
    lemma_triangle(p - x, q - y);
    assert(p + q - t == (p - x) + (q - y));
    assert(nn * x + nn * y == nn * t) by (nonlinear_arith)
        requires
            t == x + y,
    ;
    assert(nn * t <= 64 as real * t) by (nonlinear_arith)
        requires
            nn <= 64 as real,
            t >= 0 as real,
    ;
    assert((n + 1) as real * t == nn * t + t) by (nonlinear_arith)
        requires
            (n + 1) as real == nn + 1 as real,
    ;
    lemma_triangle(t, p + q - t);
    lemma_pow2_unfold(901);
    lemma_pow2_strictly_increases(901, 1000);
    lemma_sum_is_finite(a, b);
    lemma_sum_error(a, b);
    let r = a.sum(b).worth();
    lemma_triangle(r - (p + q), p + q - t);
    assert(r - t == (r - (p + q)) + (p + q - t));
}

/// A number is near itself.
pub proof fn lemma_itself(x: real, n: int)
    requires
        n >= 0,
    ensures
        near(x, x, n),
{
    let s = size(x);
    let nn = n as real;
    assert(nn * s >= 0 as real) by (nonlinear_arith)
        requires
            nn >= 0 as real,
            s >= 0 as real,
    ;
    assert(0 as real * 4503599627370496 as real == 0 as real);
}

/// Sizes multiply.
pub proof fn lemma_sized_product(x: real, y: real, n: nat, m: nat)
    requires
        sized(x, n),
        sized(y, m),
    ensures
        sized(x * y, n + m),
{
    lemma_size_of_product(x, y);
    lemma_pow2_adds(n, m);
    lemma_real_product(pow2(n) as int, pow2(m) as int);
    lemma_pow2_pos(n);
    lemma_pow2_pos(m);
    let (sx, sy, p, q) = (size(x), size(y), pow2(n) as real, pow2(m) as real);
    assert(1 as real <= (sx * sy) * (p * q)) by (nonlinear_arith)
        requires
            1 as real <= sx * p,
            1 as real <= sy * q,
    ;
    assert(sx * sy <= p * q) by (nonlinear_arith)
        requires
            0 as real <= sx <= p,
            0 as real <= sy <= q,
    ;
}

/// Sizes divide.
pub proof fn lemma_sized_quotient(x: real, y: real, n: nat, m: nat)
    requires
        sized(x, n),
        sized(y, m),
    ensures
        y != 0 as real,
        sized(x / y, n + m),
{
    lemma_pow2_adds(n, m);
    lemma_real_product(pow2(n) as int, pow2(m) as int);
    lemma_pow2_pos(n);
    lemma_pow2_pos(m);
    let (p, q) = (pow2(n) as real, pow2(m) as real);
    assert(y != 0 as real) by {
        assert(0 as real * q == 0 as real) by (nonlinear_arith);
    }
    let z = x / y;
    assert(z * y == x) by (nonlinear_arith)
        requires
            z == x / y,
            y != 0 as real,
    ;
    lemma_size_of_product(z, y);
    let (sx, sy, sz) = (size(x), size(y), size(z));
    assert(1 as real <= sz * (p * q)) by (nonlinear_arith)
        requires
            1 as real <= sx * p,
            sx == sz * sy,
            0 as real <= sy <= q,
            sz >= 0 as real,
            p > 0 as real,
    ;
    assert(sz <= p * q) by (nonlinear_arith)
        requires
            sx <= p,
            sx == sz * sy,
            1 as real <= sy * q,
            sz >= 0 as real,
            q > 0 as real,
    ;
}

/// A bound on the size may be widened.
pub proof fn lemma_sized_widens(x: real, n: nat, m: nat)
    requires
        sized(x, n),
        n <= m,
    ensures
        sized(x, m),
{
    if n < m {
        lemma_pow2_strictly_increases(n, m);
    }
    let (s, p, q) = (size(x), pow2(n) as real, pow2(m) as real);
    assert(s * p <= s * q) by (nonlinear_arith)
        requires
            s >= 0 as real,
            p <= q,
    ;
}

/// Whole numbers other than zero, of up to 53 bits, are of a size.
pub proof fn lemma_sized_integer(n: u64)
    requires
        0 < n <= SIGNIFICAND_LIMIT,
    ensures
        sized(n as real, 53),
{
    lemma2_to64_rest();
    let x = n as real;
    assert(1 as real <= x * 9007199254740992 as real);
}

/// A fraction of whole numbers is near the exact one.
pub proof fn lemma_ratio_worth(n: u64, d: u64)
    requires
        0 < n <= SIGNIFICAND_LIMIT,
        0 < d <= SIGNIFICAND_LIMIT,
    ensures
        Double::ratio(n, d).finite(),
        near(Double::ratio(n, d).worth(), n as real / d as real, 1),
        sized(n as real / d as real, 106),
{
    lemma_integer_worth(n);
    lemma_integer_worth(d);
    lemma_sized_integer(n);
    lemma_sized_integer(d);
    lemma_sized_quotient(n as real, d as real, 53, 53);
    lemma_sized_widens(n as real / d as real, 106, 900);
    lemma_itself(n as real, 0);
    lemma_itself(d as real, 0);
    lemma_over(Double::of_integer(n), Double::of_integer(d), n as real, d as real, 0, 0);
}

/// `x` is above `y` by more than a few roundings of either.
pub open spec fn beyond(x: real, y: real) -> bool {
    (x - y) * 281474976710656 as real > size(x) + size(y)
}

/// The product of two numbers comes out without rounding.
pub open spec fn exact_product(a: Double, b: Double) -> bool {
    a.product(b).finite() && a.product(b).worth() == a.worth() * b.worth()
}

/// The quotient of two numbers comes out without rounding.
pub open spec fn exact_quotient(a: Double, b: Double) -> bool {
    a.quotient(b).finite() && a.quotient(b).worth() == a.worth() / b.worth()
}

/// The difference of two numbers comes out without rounding.
pub open spec fn exact_difference(a: Double, b: Double) -> bool {
    a.difference(b).finite() && a.difference(b).worth() == a.worth() - b.worth()
}

/// What is beyond stays above after up to eight roundings.
pub proof fn lemma_beyond(a: real, b: real, x: real, y: real, n: int, m: int)
    requires
        0 <= n <= 8,
        0 <= m <= 8,
        near(a, x, n),
        near(b, y, m),
    ensures
        beyond(x, y) ==> a > b,
        beyond(y, x) ==> a < b,
{
    let (sx, sy) = (size(x), size(y));
    assert(n as real * sx <= 8 as real * sx) by (nonlinear_arith)
        requires
            n as real <= 8 as real,
            sx >= 0 as real,
    ;
    assert(m as real * sy <= 8 as real * sy) by (nonlinear_arith)
        requires
            m as real <= 8 as real,
            sy >= 0 as real,
    ;
}

/// A wider margin is met too.
pub proof fn lemma_near_widens(x: real, exact: real, n: int, m: int)
    requires
        near(x, exact, n),
        n <= m,
    ensures
        near(x, exact, m),
{
    let s = size(exact);
    assert(n as real * s <= m as real * s) by (nonlinear_arith)
        requires
            n as real <= m as real,
            s >= 0 as real,
    ;
}

/// What is near a number is on the same side of zero.
pub proof fn lemma_near_keeps_side(x: real, exact: real, n: int)
    requires
        near(x, exact, n),
        n <= 128,
    ensures
        exact > 0 as real ==> x > 0 as real,
        exact < 0 as real ==> x < 0 as real,
        exact == 0 as real ==> x == 0 as real,
{
    let s = size(exact);
    assert(n as real * s <= 128 as real * s) by (nonlinear_arith)
        requires
            n as real <= 128 as real,
            s >= 0 as real,
    ;
}

/// A number times a whole number above zero stays on its side of zero.
pub proof fn lemma_product_with_integer(a: Double, n: u64)
    requires
        !a.undefined(),
        n > 0,
    ensures
        !a.product(Double::of_integer(n)).undefined(),
        a.product(Double::of_integer(n)).rank() > 0 <==> a.rank() > 0,
        a.product(Double::of_integer(n)).rank() < 0 <==> a.rank() < 0,
{
    let one = Double::of_integer(1);
    let b = Double::of_integer(n);
    let plus = a.absolute();
    double::lemma_integer_is_finite(1);
    double::lemma_integer_is_finite(n);
    double::lemma_integers_are_ordered(1, n);
    assert(plus.magnitude() == a.magnitude() && !plus.negative());
    reveal(Double::product);
    double::lemma_product_with_one(plus);
    double::lemma_product_commutes(plus, one);
    double::lemma_product_commutes(plus, b);
    if a.magnitude() > 0 {
        double::lemma_product_is_monotone(one, b, plus);
        assert(plus.product(b).magnitude() == a.product(b).magnitude());
    } else {
        double::lemma_zero_times(a, b);
    }
}

/// The absolute value of a near number is near the size of the exact one.
pub proof fn lemma_absolute(a: Double, x: real, n: int)
    requires
        a.finite(),
        near(a.worth(), x, n),
    ensures
        a.absolute().finite(),
        a.absolute().worth() == size(a.worth()),
        near(a.absolute().worth(), size(x), n),
{
    assert(a.absolute().magnitude() == a.magnitude() && !a.absolute().negative());
    lemma_worth(a);
    lemma_worth(a.absolute());
    let w = unit_count();
    lemma_unit_count();
    let (p, q) = (a.absolute().worth(), size(a.worth()));
    assert(p == q) by (nonlinear_arith)
        requires
            p * w == q * w,
            w > 0 as real,
    ;
}

/// One is of a size.
pub proof fn lemma_sized_unit(x: real)
    requires
        size(x) == 1 as real,
    ensures
        sized(x, 1),
{
    lemma2_to64();
}

/// A product has the sign that its factors call for, and is no number where a factor is none.
pub proof fn lemma_product_flag(a: Double, b: Double)
    ensures
        a.product(b).undefined() || a.product(b).negative() == (a.negative() != b.negative()),
        a.undefined() || b.undefined() ==> a.product(b).undefined(),
{
    reveal(Double::product);
}

/// A number of a size is not zero.
pub proof fn lemma_sized_is_not_zero(x: real, n: nat)
    requires
        sized(x, n),
    ensures
        x != 0 as real,
{
    let q = pow2(n) as real;
    assert(0 as real * q == 0 as real) by (nonlinear_arith);
}

/// Ordinary amounts: above zero, and within two to the power -100 and two to the power 100.
pub open spec fn ordinary(x: Double) -> bool {
    &&& x.finite()
    &&& x.worth() > 0 as real
    &&& sized(x.worth(), 100)
}

/// A sum of numbers above zero is of a size.
pub proof fn lemma_sized_sum(x: real, y: real, n: nat)
    requires
        x > 0 as real,
        y > 0 as real,
        sized(x, n),
        sized(y, n),
    ensures
        sized(x + y, n + 1),
{
    lemma_pow2_unfold(n + 1);
    lemma_pow2_pos(n);
    let (p, q) = (pow2(n) as real, pow2(n + 1) as real);
    let t = x + y;
    assert(t * q >= x * p) by (nonlinear_arith)
        requires
            t >= x,
            x > 0 as real,
            q >= p,
            p > 0 as real,
    ;
}

/// A whole number is off by no more than a half, and by the rounding of large ones.
pub proof fn lemma_integral_worth(a: Double)
    requires
        a.finite(),
        size(a.worth()) <= pow2(900) as real,
    ensures
        a.integral().finite(),
        (size(a.integral().worth() - a.worth()) - 1 as real / 2 as real) * 4503599627370496 as real
            <= size(a.worth()) + 1 as real,
        a.integral().negative() == a.negative(),
{
    reveal(Double::integral);
    let w = unit_count();
    let one = pow2(1074);
    let u = units(a.magnitude());
    let n = (2 * u + one) / (2 * one);
    let p = n * one;
    let r = a.integral();
    lemma_pow2_pos(1074);
    lemma_unit_count();
    lemma_worth(a);
    lemma_fundamental_div_mod((2 * u + one) as int, (2 * one) as int);
    let rest = (2 * u + one) % (2 * one);
    assert(2 * p == 2 * u + one - rest) by (nonlinear_arith)
        requires
            2 * u + one == (2 * one) * n + rest,
            p == n * one,
    ;
    assert(2 * p <= 2 * u + one && 2 * p + one >= 2 * u);
    assert(p <= pow2(2074)) by {
        let s = size(a.worth());
        lemma_pow2_adds(900, 1074);
        lemma_real_product(pow2(900) as int, pow2(1074) as int);
        assert(s * w <= pow2(900) as real * w) by (nonlinear_arith)
            requires
                s <= pow2(900) as real,
                w > 0 as real,
        ;
        assert(u <= pow2(1974));
        lemma_pow2_strictly_increases(1074, 1974);
        lemma_pow2_unfold(1975);
        lemma_pow2_strictly_increases(1975, 2074);
    }
    assert(1 * pow2(2074) == pow2(2074)) by (nonlinear_arith);
    lemma_rounded_is_finite(p, 1);
    lemma_real_error(p, 1);
    assert(r.magnitude() == rounding::rounded(p, 1));
    lemma_worth(r);
    lemma_signs(a);
    lemma_signs(r);
    let (sr, sa) = (size(r.worth()), size(a.worth()));
    assert(size(r.worth() - a.worth()) == size(sr - sa));
    let (ur, ua, pr) = (units(r.magnitude()) as real, u as real, p as real);
    assert(2 as real * pr <= 2 as real * ua + w && 2 as real * pr + w >= 2 as real * ua);
    lemma_integral_bound(sr, sa, w, ur, ua, pr);
}

proof fn lemma_integral_bound(sr: real, sa: real, w: real, ur: real, ua: real, pr: real)
    requires
        w > 0 as real,
        sr * w == ur,
        sa * w == ua,
        ua >= 0 as real,
        2 as real * pr <= 2 as real * ua + w,
        2 as real * pr + w >= 2 as real * ua,
        size(ur - pr) * 9007199254740992 as real <= pr,
    ensures
        (size(sr - sa) - 1 as real / 2 as real) * 4503599627370496 as real <= sa + 1 as real,
{
    let d = sr - sa;
    lemma_size_scales(d, w);
    assert(d * w == ur - ua) by (nonlinear_arith)
        requires
            d == sr - sa,
            sr * w == ur,
            sa * w == ua,
    ;
    let sd = size(d);
    assert((sd * w - w / 2 as real) * 4503599627370496 as real <= ua + w);
    let h = 1 as real / 2 as real;
    assert((sd - h) * 4503599627370496 as real <= sa + 1 as real) by (nonlinear_arith)
        requires
            (sd * w - w / 2 as real) * 4503599627370496 as real <= ua + w,
            sa * w == ua,
            h == 1 as real / 2 as real,
            w > 0 as real,
    ;
}

/// The larger and the smaller of two finite numbers.
pub proof fn lemma_extremes(a: Double, b: Double)
    requires
        a.finite(),
        b.finite(),
    ensures
        a.larger(b).finite(),
        a.larger(b).worth() == if a.worth() < b.worth() {
            b.worth()
        } else {
            a.worth()
        },
        a.smaller(b).finite(),
        a.smaller(b).worth() == if b.worth() < a.worth() {
            b.worth()
        } else {
            a.worth()
        },
{
    lemma_order(a, b);
    lemma_order(b, a);
}

/// The larger of a near number and an exact one is near the larger of the exact ones.
pub proof fn lemma_near_floor(x: real, exact: real, floor: real, n: int)
    requires
        near(x, exact, n),
        0 <= n <= 128,
        floor > 0 as real,
        exact > 0 as real,
    ensures
        near(
            if x < floor {
                floor
            } else {
                x
            },
            if exact < floor {
                floor
            } else {
                exact
            },
            n,
        ),
{
    let m = if exact < floor {
        floor
    } else {
        exact
    };
    let nn = n as real;
    assert(nn * exact <= nn * m) by (nonlinear_arith)
        requires
            nn >= 0 as real,
            exact <= m,
    ;
    assert(nn * m >= 0 as real) by (nonlinear_arith)
        requires
            nn >= 0 as real,
            m > 0 as real,
    ;
}

} // verus!
