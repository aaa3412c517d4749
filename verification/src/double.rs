//! IEEE 754 binary64 arithmetic on bit patterns.
//!
//! Prices, lots and money are binary64 values. A `Double` holds the bits of one;
//! its operations are written with integers alone and proved against the exact
//! result, rounded to the nearest representable value with ties to even.
use vstd::prelude::*;
use vstd::arithmetic::div_mod::*;
use vstd::arithmetic::mul::*;
use vstd::arithmetic::power2::*;
use crate::rounding;
use crate::rounding::{pack, power_of_two, BIAS, HIDDEN_BIT, INFINITE, SIGNIFICAND_LIMIT};

pub mod laws;
pub mod worth;

verus! {

/// The weight of the sign bit.
pub const SIGN_BIT: u64 = 0x8000_0000_0000_0000;

/// A binary64 value, given by its bits.
#[derive(Clone, Copy, Debug)]
pub struct Double {
    pub bits: u64,
}

/// How many units a finite magnitude is worth.
pub open spec fn units(magnitude: nat) -> nat {
    let exponent = magnitude / (HIDDEN_BIT as nat);
    if exponent == 0 {
        magnitude
    } else {
        (HIDDEN_BIT as nat + magnitude % (HIDDEN_BIT as nat)) * pow2((exponent - 1) as nat)
    }
}

impl Double {
    pub open spec fn negative(self) -> bool {
        self.bits >= SIGN_BIT
    }

    pub open spec fn magnitude(self) -> nat {
        (self.bits % SIGN_BIT) as nat
    }

    pub open spec fn undefined(self) -> bool {
        self.magnitude() > INFINITE
    }

    pub open spec fn infinite(self) -> bool {
        self.magnitude() == INFINITE
    }

    pub open spec fn finite(self) -> bool {
        self.magnitude() < INFINITE
    }

    /// Exact value of a finite number, in units.
    pub open spec fn value(self) -> int {
        if self.negative() {
            -(units(self.magnitude()) as int)
        } else {
            units(self.magnitude()) as int
        }
    }

    /// Place on the number line of anything but NaN; both zeros share one place.
    pub open spec fn rank(self) -> int {
        if self.negative() {
            -(self.magnitude() as int)
        } else {
            self.magnitude() as int
        }
    }
}

impl Double {
    /// The quiet NaN that every undefined operation returns.
    pub open spec fn nan() -> Double {
        Double { bits: 0x7FF8_0000_0000_0000 }
    }

    /// The value with the given sign and magnitude.
    pub open spec fn signed(negative: bool, magnitude: nat) -> Double {
        Double {
            bits: if negative {
                (magnitude + SIGN_BIT) as u64
            } else {
                magnitude as u64
            },
        }
    }

    /// `self < b`.
    pub open spec fn below(self, b: Double) -> bool {
        !self.undefined() && !b.undefined() && self.rank() < b.rank()
    }

    /// `self <= b`.
    pub open spec fn at_most(self, b: Double) -> bool {
        !self.undefined() && !b.undefined() && self.rank() <= b.rank()
    }

    /// `self == b`: the two zeros are equal, and NaN is equal to nothing.
    pub open spec fn same(self, b: Double) -> bool {
        !self.undefined() && !b.undefined() && self.rank() == b.rank()
    }

    /// `-self`.
    pub open spec fn negated(self) -> Double {
        Double::signed(!self.negative(), self.magnitude())
    }

    /// `|self|`.
    pub open spec fn absolute(self) -> Double {
        Double::signed(false, self.magnitude())
    }

    /// The smaller of two values; a NaN gives way to the other value.
    pub open spec fn smaller(self, b: Double) -> Double {
        if self.undefined() || Double::below(b, self) {
            b
        } else {
            self
        }
    }

    /// The larger of two values; a NaN gives way to the other value.
    pub open spec fn larger(self, b: Double) -> Double {
        if self.undefined() || Double::below(self, b) {
            b
        } else {
            self
        }
    }

    /// `self + b`.
    #[verifier::opaque]
    pub open spec fn sum(self, b: Double) -> Double {
        if self.undefined() || b.undefined() || (self.infinite() && b.infinite() && self.negative()
            != b.negative()) {
            Double::nan()
        } else if self.infinite() {
            self
        } else if b.infinite() {
            b
        } else {
            let exact = self.value() + b.value();
            if exact == 0 {
                Double::signed(self.negative() && b.negative(), 0)
            } else if exact < 0 {
                Double::signed(true, rounding::rounded((-exact) as nat, 1))
            } else {
                Double::signed(false, rounding::rounded(exact as nat, 1))
            }
        }
    }

    /// `self - b`.
    pub open spec fn difference(self, b: Double) -> Double {
        Double::sum(self, Double::negated(b))
    }

    /// `self * b`.
    #[verifier::opaque]
    pub open spec fn product(self, b: Double) -> Double {
        let negative = self.negative() != b.negative();
        if self.undefined() || b.undefined() || (self.infinite() && b.magnitude() == 0) || (b.infinite()
            && self.magnitude() == 0) {
            Double::nan()
        } else if self.infinite() || b.infinite() {
            Double::signed(negative, INFINITE as nat)
        } else {
            Double::signed(negative, rounding::rounded(units(self.magnitude()) * units(b.magnitude()), pow2(1074)))
        }
    }

    /// `self / b`.
    #[verifier::opaque]
    pub open spec fn quotient(self, b: Double) -> Double {
        let negative = self.negative() != b.negative();
        if self.undefined() || b.undefined() || (self.infinite() && b.infinite()) || (self.magnitude() == 0
            && b.magnitude() == 0) {
            Double::nan()
        } else if self.infinite() || b.magnitude() == 0 {
            Double::signed(negative, INFINITE as nat)
        } else if b.infinite() {
            Double::signed(negative, 0)
        } else {
            Double::signed(negative, rounding::rounded(units(self.magnitude()) * pow2(1074), units(b.magnitude())))
        }
    }

    /// The whole number nearest to `self`; a half goes away from zero.
    #[verifier::opaque]
    pub open spec fn integral(self) -> Double {
        if self.undefined() {
            Double::nan()
        } else if self.infinite() {
            self
        } else {
            let one = pow2(1074);
            let count = (2 * units(self.magnitude()) + one) / (2 * one);
            Double::signed(self.negative(), rounding::rounded(count * one, 1))
        }
    }

    /// The binary64 value nearest to the whole number `n`.
    #[verifier::opaque]
    pub open spec fn of_integer(n: u64) -> Double {
        Double::signed(false, rounding::rounded(n as nat * pow2(1074), 1))
    }

    /// The binary64 value nearest to the fraction `n / d`.
    pub open spec fn ratio(n: u64, d: u64) -> Double {
        Double::quotient(Double::of_integer(n), Double::of_integer(d))
    }

    /// One with the sign of `self`; NaN stays NaN.
    pub open spec fn sign_of(self) -> Double {
        if self.undefined() {
            Double::nan()
        } else {
            Double::signed(self.negative(), Double::of_integer(1).magnitude())
        }
    }
}

proof fn lemma_units_of_parts(magnitude: nat)
    ensures
        magnitude == HIDDEN_BIT * (magnitude / (HIDDEN_BIT as nat)) + magnitude % (
        HIDDEN_BIT as nat),
        magnitude % (HIDDEN_BIT as nat) < HIDDEN_BIT,
{
    lemma_fundamental_div_mod(magnitude as int, HIDDEN_BIT as int);
}

/// A larger magnitude is worth more units.
pub proof fn lemma_units_increase(a: nat, b: nat)
    requires
        a < b,
    ensures
        units(a) < units(b),
{
    let h = HIDDEN_BIT as nat;
    lemma_units_of_parts(a);
    lemma_units_of_parts(b);
    lemma2_to64();
    let ea = a / h;
    let eb = b / h;
    let fa = a % h;
    let fb = b % h;
    assert(ea <= eb) by {
        lemma_div_is_ordered(a as int, b as int, h as int);
    }
    if eb > 0 {
        let wb = pow2((eb - 1) as nat);
        lemma_pow2_pos((eb - 1) as nat);
        assert((h + fb) * wb >= h * wb) by (nonlinear_arith)
            requires
                fb >= 0,
                wb > 0,
        ;
        assert(h * wb >= h) by (nonlinear_arith)
            requires
                wb > 0,
                h > 0,
        ;
        if ea == eb {
            assert((h + fa) * wb < (h + fb) * wb) by (nonlinear_arith)
                requires
                    fa < fb,
                    wb > 0,
            ;
        } else if ea > 0 {
            let wa = pow2((ea - 1) as nat);
            lemma_pow2_pos((ea - 1) as nat);
            lemma_pow2_unfold(ea);
            if ea < eb - 1 {
                lemma_pow2_strictly_increases(ea, (eb - 1) as nat);
            }
            assert((h + fa) * wa < h * (2 * wa)) by (nonlinear_arith)
                requires
                    fa < h,
                    wa > 0,
            ;
            assert(h * (2 * wa) <= h * wb) by (nonlinear_arith)
                requires
                    2 * wa <= wb,
                    h > 0,
            ;
        }
    }
}

pub proof fn lemma_units_positive(magnitude: nat)
    ensures
        units(magnitude) == 0 <==> magnitude == 0,
{
    assert(units(0) == 0) by {
        lemma_units_of_parts(0);
    }
    if magnitude > 0 {
        lemma_units_increase(0, magnitude);
    }
}

/// The magnitude of a whole number has no more than its largest exponent.
proof fn lemma_integer_is_bounded(n: u64)
    ensures
        Double::of_integer(n).magnitude() <= 1087 * (HIDDEN_BIT as nat),
        !Double::of_integer(n).negative(),
{
    reveal(Double::of_integer);
    let p = n as nat * pow2(1074);
    let k = rounding::binade(p, 1);
    lemma2_to64();
    lemma2_to64_rest();
    lemma_pow2_adds(64, 1074);
    lemma_pow2_pos(1074);
    assert(p < 1 * pow2(53 + 1085)) by (nonlinear_arith)
        requires
            p == n * pow2(1074),
            n < pow2(64),
            pow2(64 + 1074) == pow2(64) * pow2(1074),
            pow2(1074) > 0,
    ;
    rounding::lemma_binade_bounded(p, 1, 1085);
    rounding::lemma_significand_bounded(p, 1);
    assert(k * HIDDEN_BIT <= 1085 * HIDDEN_BIT) by (nonlinear_arith)
        requires
            k <= 1085,
    ;
}

/// A whole number has a finite binary64 value, which is zero for zero alone.
pub proof fn lemma_integer_is_finite(n: u64)
    ensures
        Double::of_integer(n).finite(),
        !Double::of_integer(n).negative(),
        Double::of_integer(n).magnitude() == 0 <==> n == 0,
{
    lemma_integer_is_bounded(n);
    reveal(Double::of_integer);
    let p = n as nat * pow2(1074);
    let k = rounding::binade(p, 1);
    lemma2_to64();
    lemma2_to64_rest();
    if n > 0 {
        lemma_pow2_strictly_increases(53, 1074);
        assert(p >= pow2(1074)) by (nonlinear_arith)
            requires
                p == n * pow2(1074),
                n >= 1,
        ;
        assert(k > 0);
        assert(k * HIDDEN_BIT >= HIDDEN_BIT) by (nonlinear_arith)
            requires
                k >= 1,
        ;
    } else {
        assert(0 * pow2(1074) == 0) by (nonlinear_arith);
        lemma_rounded_zero(1);
    }
}

/// A fraction of whole numbers is a number, and not below zero.
pub proof fn lemma_ratio_is_defined(n: u64, d: u64)
    requires
        n > 0 || d > 0,
    ensures
        !Double::ratio(n, d).undefined(),
        !Double::ratio(n, d).negative(),
{
    reveal(Double::quotient);
    lemma_integer_is_finite(n);
    lemma_integer_is_finite(d);
}

/// More times a number not below zero is no less.
pub proof fn lemma_product_is_monotone(a: Double, larger: Double, b: Double)
    requires
        0 <= a.rank() <= larger.rank(),
        b.rank() >= 0,
        !a.product(b).undefined(),
        !larger.product(b).undefined(),
    ensures
        0 <= a.product(b).rank() <= larger.product(b).rank(),
{
    reveal(Double::product);
    let one = pow2(1074);
    lemma_pow2_pos(1074);
    let ua = units(a.magnitude());
    let ul = units(larger.magnitude());
    let ub = units(b.magnitude());
    lemma_units_positive(a.magnitude());
    lemma_units_positive(larger.magnitude());
    lemma_units_positive(b.magnitude());
    if a.magnitude() < larger.magnitude() {
        lemma_units_increase(a.magnitude(), larger.magnitude());
    }
    assert(ua * ub <= ul * ub) by (nonlinear_arith)
        requires
            ua <= ul,
    ;
    rounding::lemma_rounded_is_monotone(ua * ub, ul * ub, one);
    assert(ua == 0 || ub == 0 ==> ua * ub == 0) by (nonlinear_arith);
    assert(ul == 0 || ub == 0 ==> ul * ub == 0) by (nonlinear_arith);
    lemma_rounded_zero(one);
}

/// A product of a number and a finite one other than zero is a number.
pub proof fn lemma_product_is_defined(a: Double, b: Double)
    requires
        !a.undefined(),
        b.finite(),
        b.magnitude() > 0,
    ensures
        !a.product(b).undefined(),
{
    reveal(Double::product);
}

/// A quotient of numbers by a finite one other than zero is a number.
pub proof fn lemma_quotient_is_defined(a: Double, b: Double)
    requires
        !a.undefined(),
        b.finite(),
        b.magnitude() > 0,
    ensures
        !a.quotient(b).undefined(),
{
    reveal(Double::quotient);
}

/// More over a number above zero is no less.
pub proof fn lemma_quotient_is_monotone(a: Double, larger: Double, b: Double)
    requires
        0 <= a.rank() <= larger.rank(),
        b.rank() > 0,
        !a.quotient(b).undefined(),
        !larger.quotient(b).undefined(),
    ensures
        0 <= a.quotient(b).rank() <= larger.quotient(b).rank(),
{
    reveal(Double::quotient);
    let one = pow2(1074);
    lemma_pow2_pos(1074);
    let ua = units(a.magnitude());
    let ul = units(larger.magnitude());
    let ub = units(b.magnitude());
    lemma_units_positive(a.magnitude());
    lemma_units_positive(larger.magnitude());
    lemma_units_positive(b.magnitude());
    if a.magnitude() < larger.magnitude() {
        lemma_units_increase(a.magnitude(), larger.magnitude());
    }
    assert(ua * one <= ul * one) by (nonlinear_arith)
        requires
            ua <= ul,
    ;
    rounding::lemma_rounded_is_monotone(ua * one, ul * one, ub);
    assert(0 * one == 0) by (nonlinear_arith);
    lemma_rounded_zero(ub);
}

/// A finite number other than zero goes into itself once.
pub proof fn lemma_quotient_with_itself(a: Double)
    requires
        a.finite(),
        a.magnitude() > 0,
    ensures
        a.quotient(a) == Double::of_integer(1),
{
    reveal(Double::quotient);
    reveal(Double::of_integer);
    let u = units(a.magnitude());
    lemma_units_positive(a.magnitude());
    rounding::lemma_rounded_scales(pow2(1074), 1, u);
    assert(u * pow2(1074) == pow2(1074) * u) by (nonlinear_arith);
}

pub proof fn lemma_rounded_is_exact(magnitude: nat)
    requires
        magnitude < INFINITE,
    ensures
        rounding::rounded(units(magnitude), 1) == magnitude,
{
    lemma_units_of_parts(magnitude);
    let exponent = magnitude / (HIDDEN_BIT as nat);
    let fraction = magnitude % (HIDDEN_BIT as nat);
    lemma2_to64();
    if exponent == 0 {
        assert(fraction * pow2(0) == fraction) by (nonlinear_arith)
            requires
                pow2(0) == 1,
        ;
        rounding::lemma_rounded_keeps_significand(fraction, 0);
    } else {
        let k = (exponent - 1) as nat;
        assert(k * (HIDDEN_BIT as nat) + (fraction + HIDDEN_BIT) == magnitude) by (nonlinear_arith)
            requires
                k == exponent - 1,
                magnitude == HIDDEN_BIT * exponent + fraction,
        ;
        rounding::lemma_rounded_keeps_significand((fraction + HIDDEN_BIT) as nat, k);
    }
}

/// One binade up, a magnitude is worth twice as much.
pub proof fn lemma_units_double(magnitude: nat)
    requires
        magnitude >= HIDDEN_BIT,
    ensures
        units(magnitude + HIDDEN_BIT as nat) == 2 * units(magnitude),
{
    let h = HIDDEN_BIT as nat;
    let e = magnitude / h;
    lemma_units_of_parts(magnitude);
    lemma_fundamental_div_mod_converse(
        (magnitude + h) as int,
        h as int,
        e as int + 1,
        (magnitude % h) as int,
    );
    assert(e >= 1);
    lemma_pow2_unfold(e);
    let s = h + magnitude % h;
    let w = pow2((e - 1) as nat);
    assert(s * (2 * w) == 2 * (s * w)) by (nonlinear_arith);
}

/// Magnitudes of the first two binades are worth their own number.
pub proof fn lemma_units_of_small(magnitude: nat)
    requires
        magnitude <= SIGNIFICAND_LIMIT,
    ensures
        units(magnitude) == magnitude,
{
    let h = HIDDEN_BIT as nat;
    lemma_units_of_parts(magnitude);
    lemma2_to64();
    if h <= magnitude < 2 * h {
        assert((h + magnitude % h) * 1 == h + magnitude % h) by (nonlinear_arith);
    } else if magnitude == 2 * h {
        assert((h + 0) * 2 == 2 * h) by (nonlinear_arith);
    }
}

/// `p / q` units are nearer to this magnitude than to its neighbours, or half way to one of
/// them where the magnitude is even.
pub open spec fn is_nearest(p: nat, q: nat, magnitude: nat) -> bool {
    let lower = (units((magnitude - 1) as nat) + units(magnitude)) * q;
    let upper = (units(magnitude) + units(magnitude + 1)) * q;
    if magnitude % 2 == 0 {
        lower <= 2 * p <= upper
    } else {
        lower < 2 * p < upper
    }
}

proof fn lemma_nearest_is_unbounded(p: nat, q: nat, magnitude: nat)
    requires
        q > 0,
        magnitude > 0,
        is_nearest(p, q, magnitude),
    ensures
        rounding::unbounded(p, q) == magnitude,
    decreases magnitude,
{
    let h = HIDDEN_BIT as nat;
    let limit = SIGNIFICAND_LIMIT as nat;
    let below = units((magnitude - 1) as nat);
    let here = units(magnitude);
    let above = units(magnitude + 1);
    rounding::lemma_unbounded_unfolds(p, q);
    if p < q * limit {
        if magnitude > limit {
            lemma_units_increase(limit, magnitude);
            if magnitude - 1 > limit {
                lemma_units_increase(limit, (magnitude - 1) as nat);
            }
            lemma_units_of_small(limit);
            assert((below + here) * q > 2 * (q * limit)) by (nonlinear_arith)
                requires
                    below + here > 2 * limit,
                    q > 0,
            ;
        }
        lemma_units_of_small((magnitude - 1) as nat);
        lemma_units_of_small(magnitude);
        lemma_fundamental_div_mod(p as int, q as int);
        let floor = p / q;
        let rest = p % q;
        let twice = (2 * magnitude - 1) * q;
        assert((below + here) * q == twice);
        if magnitude < limit {
            lemma_units_of_small(magnitude + 1);
            assert((here + above) * q == twice + 2 * q) by (nonlinear_arith)
                requires
                    here + above == 2 * magnitude + 1,
                    twice == (2 * magnitude - 1) * q,
            ;
        } else {
            assert(2 * p < twice + 2 * q) by (nonlinear_arith)
                requires
                    p < q * limit,
                    magnitude == limit,
                    twice == (2 * magnitude - 1) * q,
                    q > 0,
            ;
        }
        assert(floor == magnitude || floor == magnitude - 1) by (nonlinear_arith)
            requires
                p == q * floor + rest,
                0 <= rest < q,
                twice == (2 * magnitude - 1) * q,
                twice <= 2 * p <= twice + 2 * q,
                q > 0,
        ;
        if floor == magnitude {
            assert(2 * p == twice + q + 2 * rest) by (nonlinear_arith)
                requires
                    p == q * floor + rest,
                    floor == magnitude,
                    twice == (2 * magnitude - 1) * q,
            ;
        } else {
            assert(2 * p == twice - q + 2 * rest) by (nonlinear_arith)
                requires
                    p == q * floor + rest,
                    floor == magnitude - 1,
                    twice == (2 * magnitude - 1) * q,
            ;
        }
    } else {
        if magnitude < limit {
            lemma_units_of_small(magnitude);
            lemma_units_of_small(magnitude + 1);
            assert((here + above) * q < 2 * (q * limit)) by (nonlinear_arith)
                requires
                    here + above < 2 * limit,
                    q > 0,
            ;
        }
        let lesser = (magnitude - h) as nat;
        lemma_units_double(lesser);
        lemma_units_double(lesser + 1);
        let double_q = 2 * q;
        assert((units(lesser) + units(lesser + 1)) * double_q == (here + above) * q)
            by (nonlinear_arith)
            requires
                here == 2 * units(lesser),
                above == 2 * units(lesser + 1),
                double_q == 2 * q,
        ;
        if lesser > h {
            lemma_units_double((lesser - 1) as nat);
            assert((units((lesser - 1) as nat) + units(lesser)) * double_q == (below + here) * q)
                by (nonlinear_arith)
                requires
                    below == 2 * units((lesser - 1) as nat),
                    here == 2 * units(lesser),
                    double_q == 2 * q,
            ;
        } else {
            lemma_units_of_small((lesser - 1) as nat);
            lemma_units_of_small(lesser);
            assert((units((lesser - 1) as nat) + units(lesser)) * double_q <= 2 * p)
                by (nonlinear_arith)
                requires
                    units((lesser - 1) as nat) + units(lesser) <= limit,
                    p >= q * limit,
                    double_q == 2 * q,
            ;
        }
        lemma_nearest_is_unbounded(p, double_q, lesser);
    }
}

/// What is nearest to a magnitude is rounded to it.
pub proof fn lemma_nearest_is_rounded(p: nat, q: nat, magnitude: nat)
    requires
        q > 0,
        0 < magnitude < INFINITE,
        is_nearest(p, q, magnitude),
    ensures
        rounding::rounded(p, q) == magnitude,
{
    lemma_nearest_is_unbounded(p, q, magnitude);
}

/// A number times one is the number.
pub proof fn lemma_product_with_one(a: Double)
    requires
        !a.undefined(),
    ensures
        a.product(Double::of_integer(1)).rank() == a.rank(),
        !a.product(Double::of_integer(1)).undefined(),
{
    lemma_integer_is_finite(1);
    reveal(Double::product);
    reveal(Double::of_integer);
    if a.finite() {
        let one = pow2(1074);
        lemma_pow2_pos(1074);
        lemma_one_has_its_units();
        rounding::lemma_rounded_scales(units(a.magnitude()), 1, one);
        assert(1 * one == one) by (nonlinear_arith);
        lemma_rounded_is_exact(a.magnitude());
    }
}

/// One is worth two to the power 1074 units.
proof fn lemma_one_has_its_units()
    ensures
        units(Double::of_integer(1).magnitude()) == pow2(1074),
{
    reveal(Double::of_integer);
    let k: nat = 1022;
    lemma2_to64();
    lemma2_to64_rest();
    lemma_pow2_adds(52, k);
    assert(1 * pow2(1074) == pow2(1074)) by (nonlinear_arith);
    rounding::lemma_rounded_keeps_significand(HIDDEN_BIT as nat, k);
    let m = (k + 1) * (HIDDEN_BIT as nat);
    assert(k * (HIDDEN_BIT as nat) + HIDDEN_BIT == m) by (nonlinear_arith)
        requires
            m == (k + 1) * HIDDEN_BIT,
    ;
    lemma_fundamental_div_mod_converse(m as int, HIDDEN_BIT as int, (k + 1) as int, 0);
}

/// The order of the factors does not matter.
pub proof fn lemma_product_commutes(a: Double, b: Double)
    ensures
        a.product(b) == b.product(a),
{
    reveal(Double::product);
    let ua = units(a.magnitude());
    let ub = units(b.magnitude());
    assert(ua * ub == ub * ua) by (nonlinear_arith);
}

/// A larger whole number has no smaller binary64 value.
pub proof fn lemma_integers_are_ordered(n: u64, larger: u64)
    requires
        n <= larger,
    ensures
        Double::of_integer(n).rank() <= Double::of_integer(larger).rank(),
{
    reveal(Double::of_integer);
    lemma_integer_is_finite(n);
    lemma_integer_is_finite(larger);
    let one = pow2(1074);
    assert(n as nat * one <= larger as nat * one) by (nonlinear_arith)
        requires
            n <= larger,
    ;
    rounding::lemma_rounded_is_monotone(n as nat * one, larger as nat * one, 1);
}

/// A whole number is worth no more than two to the power 1138 units, and one other than zero
/// no less than one is.
proof fn lemma_integer_units(n: u64)
    ensures
        units(Double::of_integer(n).magnitude()) <= pow2(1138),
        n > 0 ==> units(Double::of_integer(n).magnitude()) >= pow2(1074),
{
    lemma_integer_is_bounded(n);
    let m = Double::of_integer(n).magnitude();
    let top = 1087 * (HIDDEN_BIT as nat);
    lemma_fundamental_div_mod_converse(top as int, HIDDEN_BIT as int, 1087, 0);
    lemma2_to64_rest();
    lemma_pow2_adds(52, 1086);
    if m < top {
        lemma_units_increase(m, top);
    }
    if n > 0 {
        lemma_integer_is_finite(1);
        lemma_integer_is_finite(n);
        lemma_integers_are_ordered(1, n);
        lemma_one_has_its_units();
        let one = Double::of_integer(1).magnitude();
        if one < m {
            lemma_units_increase(one, m);
        }
    }
}

/// A fraction of whole numbers other than zero is a finite number above zero.
pub proof fn lemma_fraction_is_positive(n: u64, d: u64)
    requires
        n > 0,
        d > 0,
    ensures
        Double::ratio(n, d).finite(),
        !Double::ratio(n, d).negative(),
        Double::ratio(n, d).magnitude() > 0,
{
    reveal(Double::quotient);
    lemma_integer_is_finite(n);
    lemma_integer_is_finite(d);
    lemma_integer_units(n);
    lemma_integer_units(d);
    let one = pow2(1074);
    let un = units(Double::of_integer(n).magnitude());
    let ud = units(Double::of_integer(d).magnitude());
    lemma_pow2_pos(1074);
    // Not infinite: no more than the numerator
    rounding::lemma_rounded_falls_with_divisor(un * one, one, ud);
    rounding::lemma_rounded_scales(un, 1, one);
    assert(1 * one == one) by (nonlinear_arith);
    lemma_rounded_is_exact(Double::of_integer(n).magnitude());
    // Not zero: at least one unit
    lemma_pow2_adds(1074, 1074);
    lemma_pow2_strictly_increases(1138, 2148);
    assert(un * one >= one * one) by (nonlinear_arith)
        requires
            un >= one,
    ;
    rounding::lemma_rounded_is_monotone(ud, un * one, ud);
    rounding::lemma_rounded_scales(1, 1, ud);
    assert(1 * ud == ud) by (nonlinear_arith);
    assert(units(1) == 1) by {
        lemma_units_of_parts(1);
    }
    lemma_rounded_is_exact(1);
}

/// A number not below zero, times a fraction of at least one, is no less than the number.
pub proof fn lemma_product_with_excess(a: Double, n: u64, d: u64)
    requires
        !a.undefined(),
        a.rank() > 0,
        n >= d > 0,
    ensures
        !a.product(Double::ratio(n, d)).undefined(),
        a.rank() <= a.product(Double::ratio(n, d)).rank(),
{
    let one = Double::of_integer(1);
    let factor = Double::ratio(n, d);
    lemma_integer_is_finite(1);
    lemma_integer_is_finite(n);
    lemma_integer_is_finite(d);
    lemma_integers_are_ordered(d, n);
    lemma_quotient_with_itself(Double::of_integer(d));
    lemma_ratio_is_defined(n, d);
    lemma_quotient_is_monotone(Double::of_integer(d), Double::of_integer(n), Double::of_integer(d));
    lemma_product_with_one(a);
    lemma_product_commutes(a, one);
    lemma_product_commutes(a, factor);
    assert(!a.product(factor).undefined()) by {
        reveal(Double::product);
    }
    lemma_product_is_monotone(one, factor, a);
}

/// A number not below zero, with one not below zero added, is no less, and with one taken
/// away it is no more.
pub proof fn lemma_sum_moves_outward(a: Double, b: Double)
    requires
        a.finite(),
        !b.undefined(),
        a.rank() >= 0,
        b.rank() >= 0,
    ensures
        !a.sum(b).undefined(),
        a.rank() <= a.sum(b).rank(),
        !a.difference(b).undefined(),
        a.difference(b).rank() <= a.rank(),
{
    reveal(Double::sum);
    let ua = units(a.magnitude());
    let ub = units(b.magnitude());
    let minus = b.negated();
    assert(minus.magnitude() == b.magnitude() && minus.negative() == !b.negative());
    lemma_units_positive(a.magnitude());
    lemma_units_positive(b.magnitude());
    lemma_rounded_is_exact(a.magnitude());
    rounding::lemma_rounded_is_monotone(ua, ua + ub, 1);
    if ua > ub {
        rounding::lemma_rounded_is_monotone((ua - ub) as nat, ua, 1);
    }
}

/// A sum of finite numbers is a number.
pub proof fn lemma_sum_is_defined(a: Double, b: Double)
    requires
        a.finite(),
        b.finite(),
    ensures
        !a.sum(b).undefined(),
{
    reveal(Double::sum);
}

/// Zero times a finite number is zero.
pub proof fn lemma_zero_times(a: Double, b: Double)
    requires
        a.magnitude() == 0,
        b.finite(),
    ensures
        a.product(b).magnitude() == 0,
{
    reveal(Double::product);
    let ub = units(b.magnitude());
    lemma_units_positive(0);
    lemma_pow2_pos(1074);
    assert(0 * ub == 0) by (nonlinear_arith);
    lemma_rounded_zero(pow2(1074));
}

/// Zero over a number other than zero is zero.
pub proof fn lemma_zero_over(a: Double, b: Double)
    requires
        a.magnitude() == 0,
        !b.undefined(),
        b.magnitude() > 0,
    ensures
        a.quotient(b).magnitude() == 0,
{
    reveal(Double::quotient);
    lemma_units_positive(0);
    lemma_units_positive(b.magnitude());
    assert(0 * pow2(1074) == 0) by (nonlinear_arith);
    lemma_rounded_zero(units(b.magnitude()));
}

/// The order of the summands does not matter.
pub proof fn lemma_sum_commutes(a: Double, b: Double)
    ensures
        a.sum(b) == b.sum(a),
{
    reveal(Double::sum);
}

/// Turning the signs of two numbers turns the sign of their sum.
pub proof fn lemma_sum_of_negated(a: Double, b: Double)
    ensures
        a.negated().sum(b.negated()).rank() == -a.sum(b).rank() || a.sum(b).undefined(),
        a.negated().sum(b.negated()).undefined() == a.sum(b).undefined(),
{
    reveal(Double::sum);
    assert(a.negated().magnitude() == a.magnitude() && a.negated().negative() == !a.negative());
    assert(b.negated().magnitude() == b.magnitude() && b.negated().negative() == !b.negative());
}

/// A number added to zero is the number.
pub proof fn lemma_sum_with_zero(a: Double)
    requires
        !a.undefined(),
    ensures
        Double::of_integer(0).sum(a).same(a),
{
    reveal(Double::sum);
    lemma_integer_is_finite(0);
    lemma_units_positive(0);
    lemma_units_positive(a.magnitude());
    if a.finite() {
        lemma_rounded_is_exact(a.magnitude());
    }
}

/// Zero is worth nothing.
pub proof fn lemma_zero_has_no_value()
    ensures
        Double::of_integer(0).value() == 0,
{
    lemma_integer_is_finite(0);
    lemma_units_positive(Double::of_integer(0).magnitude());
}

/// Two finite numbers are equal exactly where their exact values are.
pub proof fn lemma_same_by_value(a: Double, b: Double)
    requires
        a.finite(),
        b.finite(),
    ensures
        a.same(b) <==> a.value() == b.value(),
{
    law_order_is_exact(a, b);
    law_order_is_exact(b, a);
}

/// A sum that is itself a binary64 value is exact.
pub proof fn lemma_sum_is_exact(a: Double, b: Double, exact: Double)
    requires
        a.finite(),
        b.finite(),
        exact.finite(),
        exact.value() == a.value() + b.value(),
    ensures
        a.sum(b).finite(),
        a.sum(b).value() == exact.value(),
{
    reveal(Double::sum);
    lemma_units_positive(0);
    lemma_rounded_is_exact(exact.magnitude());
}

/// The difference of two finite numbers has the sign of their order, and is zero for equal
/// numbers alone.
pub proof fn lemma_difference_has_the_sign_of_the_order(a: Double, b: Double)
    requires
        a.finite(),
        b.finite(),
    ensures
        !a.difference(b).undefined(),
        a.difference(b).rank() > 0 <==> b.below(a),
        a.difference(b).rank() < 0 <==> a.below(b),
        a.difference(b).magnitude() == 0 <==> a.same(b),
{
    reveal(Double::sum);
    law_order_is_exact(a, b);
    law_order_is_exact(b, a);
    assert(b.negated().magnitude() == b.magnitude() && b.negated().negative() == !b.negative());
    let exact = a.value() - b.value();
    assert(units(1) == 1) by {
        lemma_units_of_parts(1);
    }
    lemma_rounded_is_exact(1);
    if exact > 0 {
        rounding::lemma_rounded_is_monotone(1, exact as nat, 1);
    } else if exact < 0 {
        rounding::lemma_rounded_is_monotone(1, (-exact) as nat, 1);
    }
}

/// What is left of a number after taking it away is not above zero.
pub proof fn lemma_difference_with_itself(a: Double)
    ensures
        a.difference(a).undefined() || a.difference(a).magnitude() == 0,
{
    reveal(Double::sum);
    assert(a.negated().magnitude() == a.magnitude());
    assert(a.negated().negative() == !a.negative());
}

/// A number not above zero times one not below zero is not above zero.
pub proof fn lemma_product_not_above_zero(a: Double, b: Double)
    requires
        a.rank() <= 0,
        b.rank() >= 0,
        !a.product(b).undefined(),
    ensures
        a.product(b).rank() <= 0,
{
    reveal(Double::product);
    lemma_units_positive(a.magnitude());
    lemma_units_positive(b.magnitude());
    let p = units(a.magnitude()) * units(b.magnitude());
    if a.magnitude() == 0 || b.magnitude() == 0 {
        assert(p == 0) by (nonlinear_arith)
            requires
                p == units(a.magnitude()) * units(b.magnitude()),
                units(a.magnitude()) == 0 || units(b.magnitude()) == 0,
        ;
        lemma_pow2_pos(1074);
        lemma_rounded_zero(pow2(1074));
    }
}

/// The order of two finite numbers is the order of their exact values.
pub proof fn law_order_is_exact(a: Double, b: Double)
    requires
        a.finite(),
        b.finite(),
    ensures
        Double::below(a, b) <==> a.value() < b.value(),
        Double::at_most(a, b) <==> a.value() <= b.value(),
{
    let ma = a.magnitude();
    let mb = b.magnitude();
    lemma_units_positive(ma);
    lemma_units_positive(mb);
    if ma < mb {
        lemma_units_increase(ma, mb);
    } else if mb < ma {
        lemma_units_increase(mb, ma);
    }
}

/// Significand and exponent of a finite magnitude.
pub(crate) fn unpack(magnitude: u64) -> (r: (u64, u32))
    requires
        magnitude <= INFINITE,
    ensures
        r.0 < SIGNIFICAND_LIMIT,
        r.1 <= 2046,
        magnitude < INFINITE ==> r.1 <= 2045,
        r.0 * pow2(r.1 as nat) == units(magnitude as nat),
        r.1 == 0 || r.0 >= HIDDEN_BIT,
        r.1 as nat == if magnitude < HIDDEN_BIT {
            0
        } else {
            (magnitude as nat / (HIDDEN_BIT as nat) - 1) as nat
        },
{
    let exponent: u64 = magnitude / HIDDEN_BIT;
    proof {
        lemma_units_of_parts(magnitude as nat);
        lemma2_to64();
    }
    if exponent == 0 {
        (magnitude, 0)
    } else {
        (HIDDEN_BIT + magnitude % HIDDEN_BIT, (exponent - 1) as u32)
    }
}

/// Magnitude of the sum or the difference of two magnitudes, the first not the smaller.
fn combine(large: u64, small: u64, subtract: bool) -> (magnitude: u64)
    requires
        small <= large < INFINITE,
    ensures
        magnitude <= INFINITE,
        magnitude == if subtract {
            rounding::rounded((units(large as nat) - units(small as nat)) as nat, 1)
        } else {
            rounding::rounded(units(large as nat) + units(small as nat), 1)
        },
        units(small as nat) <= units(large as nat),
{
    let (ml, kl) = unpack(large);
    let (ms, ks) = unpack(small);
    let ghost ul = units(large as nat);
    let ghost us = units(small as nat);
    let ghost exact: nat = if subtract {
        (ul - us) as nat
    } else {
        ul + us
    };
    proof {
        if small < large {
            lemma_units_increase(small as nat, large as nat);
        }
        lemma_div_is_ordered(small as int, large as int, HIDDEN_BIT as int);
        lemma2_to64();
        lemma2_to64_rest();
    }
    let gap: u32 = kl - ks;
    let ghost w = pow2(ks as nat);
    let ghost b = pow2(BIAS as nat);
    proof {
        lemma_pow2_adds(ks as nat, gap as nat);
        lemma_pow2_pos(ks as nat);
        lemma_pow2_pos(gap as nat);
    }
    if gap <= 64 {
        let scale: u128 = power_of_two(gap);
        proof {
            if gap < 64 {
                lemma_pow2_strictly_increases(gap as nat, 64);
            }
            assert(ml * scale <= (SIGNIFICAND_LIMIT - 1) * pow2(64)) by (nonlinear_arith)
                requires
                    ml <= SIGNIFICAND_LIMIT - 1,
                    scale <= pow2(64),
            ;
        }
        let wide: u128 = ml as u128 * scale;
        proof {
            let t = pow2(gap as nat);
            lemma_pow2_adds(53, 64);
            assert(SIGNIFICAND_LIMIT * pow2(64) == (SIGNIFICAND_LIMIT - 1) * pow2(64) + pow2(64))
                by (nonlinear_arith);
            assert(ul == (ml * t) * w) by (nonlinear_arith)
                requires
                    ul == ml * (w * t),
            ;
            if subtract {
                assert(ml * t >= ms) by (nonlinear_arith)
                    requires
                        (ml * t) * w >= ms * w,
                        w > 0,
                ;
                assert((ml * t - ms) * w == (ml * t) * w - ms * w) by (nonlinear_arith);
            } else {
                assert((ml * t + ms) * w == (ml * t) * w + ms * w) by (nonlinear_arith);
            }
        }
        let p: u128 = if subtract {
            wide - ms as u128
        } else {
            wide + ms as u128
        };
        proof {
            lemma_pow2_adds(ks as nat, BIAS as nat);
            assert(exact == p * w);
            assert(exact * b == p * (1 * (w * b))) by (nonlinear_arith)
                requires
                    exact == p * w,
            ;
        }
        pack(p, ks + BIAS, false, Ghost(exact), Ghost(1))
    } else if ms == 0 {
        proof {
            lemma_pow2_adds(kl as nat, BIAS as nat);
            assert(0 * w == 0) by (nonlinear_arith);
            assert(exact * b == ml * (1 * (pow2(kl as nat) * b))) by (nonlinear_arith)
                requires
                    exact == ml * pow2(kl as nat),
            ;
            lemma_pow2_strictly_increases(53, 117);
        }
        pack(ml as u128, kl + BIAS, false, Ghost(exact), Ghost(1))
    } else {
        // The smaller term is below one part in 2^12 of the last place of the larger.
        let shifted: u128 = ml as u128 * 4096;
        let p: u128 = if subtract {
            shifted - 1
        } else {
            shifted
        };
        let e: u32 = kl - 12 + BIAS;
        proof {
            let v = pow2((kl - 12) as nat);
            let g = pow2(e as nat);
            lemma_pow2_adds((kl - 12) as nat, 12);
            lemma_pow2_adds((kl - 12) as nat, BIAS as nat);
            lemma_pow2_pos((kl - 12) as nat);
            lemma_pow2_pos(BIAS as nat);
            lemma_pow2_adds(ks as nat, 53);
            if ks + 53 < kl - 12 {
                lemma_pow2_strictly_increases((ks + 53) as nat, (kl - 12) as nat);
            }
            assert(0 < us < v) by (nonlinear_arith)
                requires
                    us == ms * w,
                    0 < ms < SIGNIFICAND_LIMIT,
                    w * SIGNIFICAND_LIMIT <= v,
                    w > 0,
            ;
            assert(ul == shifted * v) by (nonlinear_arith)
                requires
                    ul == ml * (v * 4096),
                    shifted == ml * 4096,
            ;
            assert((p + 1) * v == p * v + v) by (nonlinear_arith);
            assert(p * v < exact < (p + 1) * v);
            assert(p * (1 * g) < exact * b < (p + 1) * (1 * g)) by (nonlinear_arith)
                requires
                    p * v < exact < (p + 1) * v,
                    g == v * b,
                    b > 0,
            ;
            lemma_pow2_strictly_increases(64, 66);
            lemma_pow2_strictly_increases(66, 117);
            lemma_pow2_adds(64, 2);
        }
        pack(p, e, true, Ghost(exact), Ghost(1))
    }
}

/// Brings the leading bit of a significand to its place; the number of places goes second.
fn normalize(m: u64) -> (r: (u64, u32))
    requires
        0 < m < SIGNIFICAND_LIMIT,
    ensures
        HIDDEN_BIT <= r.0 < SIGNIFICAND_LIMIT,
        r.1 <= 52,
        r.0 == m * pow2(r.1 as nat),
{
    let mut s: u64 = m;
    let mut up: u32 = 0;
    proof {
        lemma2_to64();
        lemma2_to64_rest();
    }
    while s < HIDDEN_BIT
        invariant
            0 < m,
            0 < s < SIGNIFICAND_LIMIT,
            up <= 52,
            s == m * pow2(up as nat),
            pow2(52) == HIDDEN_BIT,
        decreases SIGNIFICAND_LIMIT - s,
    {
        proof {
            lemma_pow2_unfold((up + 1) as nat);
            assert(m * (2 * pow2(up as nat)) == 2 * (m * pow2(up as nat))) by (nonlinear_arith);
            if up == 52 {
                assert(m * pow2(52) >= pow2(52)) by (nonlinear_arith)
                    requires
                        m > 0,
                ;
            }
        }
        s = s * 2;
        up = up + 1;
    }
    (s, up)
}

/// Magnitude of the product of two finite magnitudes.
fn multiply(a: u64, b: u64) -> (magnitude: u64)
    requires
        a < INFINITE,
        b < INFINITE,
    ensures
        magnitude <= INFINITE,
        magnitude == rounding::rounded(units(a as nat) * units(b as nat), pow2(1074)),
{
    let (ma, ka) = unpack(a);
    let (mb, kb) = unpack(b);
    proof {
        lemma2_to64_rest();
        assert(ma * mb < SIGNIFICAND_LIMIT * SIGNIFICAND_LIMIT) by (nonlinear_arith)
            requires
                ma < SIGNIFICAND_LIMIT,
                mb < SIGNIFICAND_LIMIT,
        ;
        lemma_pow2_adds(53, 53);
        lemma_pow2_strictly_increases(106, 117);
        lemma_pow2_pos(1074);
    }
    let p: u128 = ma as u128 * mb as u128;
    let e: u32 = ka + kb + BIAS - 1074;
    let ghost num = units(a as nat) * units(b as nat);
    proof {
        let wa = pow2(ka as nat);
        let wb = pow2(kb as nat);
        lemma_pow2_adds(ka as nat, kb as nat);
        lemma_pow2_adds((ka + kb) as nat, BIAS as nat);
        lemma_pow2_adds(1074, e as nat);
        assert(num * pow2(BIAS as nat) == p * (pow2(1074) * pow2(e as nat))) by (nonlinear_arith)
            requires
                num == (ma * wa) * (mb * wb),
                p == ma * mb,
                pow2(1074) * pow2(e as nat) == (wa * wb) * pow2(BIAS as nat),
        ;
    }
    pack(p, e, false, Ghost(num), Ghost(pow2(1074)))
}

/// Magnitude of the quotient of two finite magnitudes other than zero.
fn divide(a: u64, b: u64) -> (magnitude: u64)
    requires
        0 < a < INFINITE,
        0 < b < INFINITE,
    ensures
        magnitude <= INFINITE,
        magnitude == rounding::rounded(units(a as nat) * pow2(1074), units(b as nat)),
{
    let (ma, ka) = unpack(a);
    let (mb, kb) = unpack(b);
    proof {
        lemma_units_positive(a as nat);
        lemma_units_positive(b as nat);
        assert(0 * pow2(ka as nat) == 0) by (nonlinear_arith);
        assert(0 * pow2(kb as nat) == 0) by (nonlinear_arith);
        lemma2_to64();
        lemma2_to64_rest();
    }
    let (m, up) = normalize(ma);
    let n: u128 = m as u128 * 0x1_0000_0000_0000_0000;
    let p: u128 = n / (mb as u128);
    let rest: u128 = n % (mb as u128);
    let e: u32 = ka + 2162 - up - kb;
    let ghost num = units(a as nat) * pow2(1074);
    let ghost den = units(b as nat);
    proof {
        let wa = pow2(ka as nat);
        let wb = pow2(kb as nat);
        let t = pow2(up as nat);
        let h = pow2((kb + e) as nat);
        let bias = pow2(BIAS as nat);
        lemma_pow2_adds(kb as nat, e as nat);
        lemma_pow2_pos((kb + e) as nat);
        // num * 2^BIAS == n * h
        lemma_pow2_adds(1074, BIAS as nat);
        lemma_pow2_adds(ka as nat, 2226);
        lemma_pow2_adds(up as nat, 64);
        lemma_pow2_adds((up + 64) as nat, (kb + e) as nat);
        assert(up + 64 + kb + e == ka + 2226);
        assert(num * bias == ma * (wa * (pow2(1074) * bias))) by (nonlinear_arith)
            requires
                num == (ma * wa) * pow2(1074),
        ;
        assert(n * h == ma * ((t * pow2(64)) * h)) by (nonlinear_arith)
            requires
                n == (ma * t) * pow2(64),
        ;
        assert(num * bias == n * h);
        // n == p * mb + rest
        lemma_fundamental_div_mod(n as int, mb as int);
        let g = den * pow2(e as nat);
        assert(g == mb * h) by (nonlinear_arith)
            requires
                g == (mb * wb) * pow2(e as nat),
                h == wb * pow2(e as nat),
        ;
        assert(n * h == p * g + rest * h) by (nonlinear_arith)
            requires
                n == mb * p + rest,
                g == mb * h,
        ;
        assert((p + 1) * g == p * g + g) by (nonlinear_arith);
        assert(rest * h < g) by (nonlinear_arith)
            requires
                rest < mb,
                g == mb * h,
                h > 0,
        ;
        assert(rest > 0 ==> rest * h > 0) by (nonlinear_arith)
            requires
                h > 0,
        ;
        assert(0 * h == 0) by (nonlinear_arith);
        assert(p >= HIDDEN_BIT * 4) by (nonlinear_arith)
            requires
                n == mb * p + rest,
                rest < mb,
                mb < SIGNIFICAND_LIMIT,
                n >= HIDDEN_BIT * 0x1_0000_0000_0000_0000,
        ;
        assert(p <= n) by (nonlinear_arith)
            requires
                n == mb * p + rest,
                mb >= 1,
                rest >= 0,
                p >= 0,
        ;
        lemma_pow2_adds(53, 64);
    }
    pack(p, e, rest != 0, Ghost(num), Ghost(den))
}

impl Double {
    /// The value whose bits are given.
    pub fn from_bits(bits: u64) -> (r: Double)
        ensures
            r == (Double { bits }),
    {
        Double { bits }
    }

    /// The bits of the value.
    pub fn to_bits(self) -> (bits: u64)
        ensures
            bits == self.bits,
    {
        self.bits
    }

    pub fn is_nan(self) -> (r: bool)
        ensures
            r == self.undefined(),
    {
        self.bits % SIGN_BIT > INFINITE
    }

    fn with_sign(negative: bool, magnitude: u64) -> (r: Double)
        requires
            magnitude < SIGN_BIT,
        ensures
            r == Double::signed(negative, magnitude as nat),
    {
        if negative {
            Double { bits: magnitude + SIGN_BIT }
        } else {
            Double { bits: magnitude }
        }
    }

    pub fn is_below(self, other: Double) -> (r: bool)
        ensures
            r == Double::below(self, other),
    {
        if self.is_nan() || other.is_nan() {
            return false;
        }
        let a: u64 = self.bits % SIGN_BIT;
        let b: u64 = other.bits % SIGN_BIT;
        if self.bits >= SIGN_BIT {
            if other.bits >= SIGN_BIT {
                b < a
            } else {
                a != 0 || b != 0
            }
        } else if other.bits >= SIGN_BIT {
            false
        } else {
            a < b
        }
    }

    pub fn is_above(self, other: Double) -> (r: bool)
        ensures
            r == Double::below(other, self),
    {
        other.is_below(self)
    }

    pub fn is_at_most(self, other: Double) -> (r: bool)
        ensures
            r == Double::at_most(self, other),
    {
        !self.is_nan() && !other.is_nan() && !other.is_below(self)
    }

    pub fn is_at_least(self, other: Double) -> (r: bool)
        ensures
            r == Double::at_most(other, self),
    {
        other.is_at_most(self)
    }

    pub fn equals(self, other: Double) -> (r: bool)
        ensures
            r == Double::same(self, other),
    {
        self.is_at_most(other) && other.is_at_most(self)
    }

    pub fn negate(self) -> (r: Double)
        ensures
            r == Double::negated(self),
    {
        Double::with_sign(self.bits < SIGN_BIT, self.bits % SIGN_BIT)
    }

    pub fn abs(self) -> (r: Double)
        ensures
            r == Double::absolute(self),
    {
        Double { bits: self.bits % SIGN_BIT }
    }

    pub fn min(self, other: Double) -> (r: Double)
        ensures
            r == Double::smaller(self, other),
    {
        if self.is_nan() || other.is_below(self) {
            other
        } else {
            self
        }
    }

    pub fn max(self, other: Double) -> (r: Double)
        ensures
            r == Double::larger(self, other),
    {
        if self.is_nan() || self.is_below(other) {
            other
        } else {
            self
        }
    }

    pub fn signum(self) -> (r: Double)
        ensures
            r == Double::sign_of(self),
    {
        if self.is_nan() {
            Double { bits: 0x7FF8_0000_0000_0000 }
        } else {
            let one: Double = Double::from_u64(1);
            Double::with_sign(self.bits >= SIGN_BIT, one.bits % SIGN_BIT)
        }
    }

    pub fn plus(self, other: Double) -> (r: Double)
        ensures
            r == Double::sum(self, other),
    {
        proof {
            reveal(Double::sum);
        }
        let a: u64 = self.bits % SIGN_BIT;
        let b: u64 = other.bits % SIGN_BIT;
        let na: bool = self.bits >= SIGN_BIT;
        let nb: bool = other.bits >= SIGN_BIT;
        if a > INFINITE || b > INFINITE || (a == INFINITE && b == INFINITE && na != nb) {
            return Double { bits: 0x7FF8_0000_0000_0000 };
        }
        if a == INFINITE {
            return self;
        }
        if b == INFINITE {
            return other;
        }
        let subtract: bool = na != nb;
        proof {
            lemma_units_positive(a as nat);
            lemma_units_positive(b as nat);
            if a < b {
                lemma_units_increase(a as nat, b as nat);
            } else if b < a {
                lemma_units_increase(b as nat, a as nat);
            }
        }
        if a == b && subtract {
            return Double { bits: 0 };
        }
        if a == 0 && b == 0 {
            return Double::with_sign(na && nb, 0);
        }
        if a >= b {
            Double::with_sign(na, combine(a, b, subtract))
        } else {
            Double::with_sign(nb, combine(b, a, subtract))
        }
    }

    pub fn minus(self, other: Double) -> (r: Double)
        ensures
            r == Double::difference(self, other),
    {
        self.plus(other.negate())
    }

    pub fn times(self, other: Double) -> (r: Double)
        ensures
            r == Double::product(self, other),
    {
        proof {
            reveal(Double::product);
        }
        let a: u64 = self.bits % SIGN_BIT;
        let b: u64 = other.bits % SIGN_BIT;
        let negative: bool = (self.bits >= SIGN_BIT) != (other.bits >= SIGN_BIT);
        if a > INFINITE || b > INFINITE || (a == INFINITE && b == 0) || (b == INFINITE && a == 0) {
            return Double { bits: 0x7FF8_0000_0000_0000 };
        }
        if a == INFINITE || b == INFINITE {
            return Double::with_sign(negative, INFINITE);
        }
        Double::with_sign(negative, multiply(a, b))
    }

    pub fn over(self, other: Double) -> (r: Double)
        ensures
            r == Double::quotient(self, other),
    {
        proof {
            reveal(Double::quotient);
        }
        let a: u64 = self.bits % SIGN_BIT;
        let b: u64 = other.bits % SIGN_BIT;
        let negative: bool = (self.bits >= SIGN_BIT) != (other.bits >= SIGN_BIT);
        if a > INFINITE || b > INFINITE || (a == INFINITE && b == INFINITE) || (a == 0 && b == 0) {
            return Double { bits: 0x7FF8_0000_0000_0000 };
        }
        if a == INFINITE || b == 0 {
            return Double::with_sign(negative, INFINITE);
        }
        if b == INFINITE {
            return Double::with_sign(negative, 0);
        }
        if a == 0 {
            proof {
                lemma_units_positive(0);
                lemma_units_positive(b as nat);
                assert(0 * pow2(1074) == 0) by (nonlinear_arith);
                lemma_rounded_zero(units(b as nat));
            }
            return Double::with_sign(negative, 0);
        }
        Double::with_sign(negative, divide(a, b))
    }

    pub fn round(self) -> (r: Double)
        ensures
            r == Double::integral(self),
    {
        proof {
            reveal(Double::integral);
        }
        let a: u64 = self.bits % SIGN_BIT;
        if a > INFINITE {
            return Double { bits: 0x7FF8_0000_0000_0000 };
        }
        if a == INFINITE {
            return self;
        }
        Double::with_sign(self.bits >= SIGN_BIT, nearest_integer(a))
    }

    pub fn from_u64(n: u64) -> (r: Double)
        ensures
            r == Double::of_integer(n),
    {
        proof {
            reveal(Double::of_integer);
            lemma2_to64();
            lemma_pow2_strictly_increases(64, 117);
            lemma_pow2_adds(1074, BIAS as nat);
            assert((n as nat * pow2(1074)) * pow2(BIAS as nat) == n as nat * (1 * pow2(
                (1074 + BIAS) as nat,
            ))) by (nonlinear_arith)
                requires
                    pow2((1074 + BIAS) as nat) == pow2(1074) * pow2(BIAS as nat),
            ;
        }
        Double::with_sign(
            false,
            pack(n as u128, 1074 + BIAS, false, Ghost(n as nat * pow2(1074)), Ghost(1)),
        )
    }

    /// The value nearest to `n / d`.
    pub fn from_ratio(n: u64, d: u64) -> (r: Double)
        ensures
            r == Double::ratio(n, d),
    {
        Double::from_u64(n).over(Double::from_u64(d))
    }
}

/// Equality of values: zeros of either sign are equal, and NaN is equal to nothing.
impl PartialEq for Double {
    fn eq(&self, other: &Double) -> (r: bool) {
        self.equals(*other)
    }
}

impl vstd::std_specs::cmp::PartialEqSpecImpl for Double {
    open spec fn obeys_eq_spec() -> bool {
        true
    }

    open spec fn eq_spec(&self, other: &Double) -> bool {
        Double::same(*self, *other)
    }
}

proof fn lemma_rounded_zero(q: nat)
    requires
        q > 0,
    ensures
        rounding::rounded(0, q) == 0,
{
    assert(0 < q * SIGNIFICAND_LIMIT) by (nonlinear_arith)
        requires
            q > 0,
    ;
    lemma2_to64();
    assert(q * 1 == q) by (nonlinear_arith);
    lemma_small_mod(0, q);
    lemma_basic_div(0, q as int);
}

/// Magnitude of the whole number nearest to a finite magnitude, halves going up.
fn nearest_integer(a: u64) -> (magnitude: u64)
    requires
        a < INFINITE,
    ensures
        magnitude <= INFINITE,
        magnitude == rounding::rounded(
            ((2 * units(a as nat) + pow2(1074)) / (2 * pow2(1074))) * pow2(1074),
            1,
        ),
{
    let (m, k) = unpack(a);
    let ghost one = pow2(1074);
    let ghost u = units(a as nat);
    let ghost count: nat = (2 * u + one) / (2 * one);
    proof {
        lemma_pow2_pos(1074);
        lemma2_to64();
        lemma2_to64_rest();
        lemma_pow2_strictly_increases(53, 117);
        lemma_pow2_adds(1074, BIAS as nat);
    }
    if k >= 1074 {
        // Already a whole number.
        proof {
            let t = pow2((k - 1074) as nat);
            lemma_pow2_adds(1074, (k - 1074) as nat);
            assert(2 * u + one == (m * t) * (2 * one) + one) by (nonlinear_arith)
                requires
                    u == m * (one * t),
            ;
            lemma_fundamental_div_mod_converse(
                (2 * u + one) as int,
                (2 * one) as int,
                (m * t) as int,
                one as int,
            );
            lemma_pow2_adds(k as nat, BIAS as nat);
            assert(count * one == u) by (nonlinear_arith)
                requires
                    count == m * t,
                    u == m * (one * t),
            ;
            assert(u * pow2(BIAS as nat) == m * (1 * pow2((k + BIAS) as nat))) by (nonlinear_arith)
                requires
                    u == m * pow2(k as nat),
                    pow2((k + BIAS) as nat) == pow2(k as nat) * pow2(BIAS as nat),
            ;
        }
        return pack(m as u128, k + BIAS, false, Ghost(count * one), Ghost(1));
    }
    let drop: u32 = 1074 - k;
    let c: u64;
    if drop > 54 {
        proof {
            // Below one half.
            lemma_pow2_adds(k as nat, drop as nat);
            lemma_pow2_strictly_increases(54, drop as nat);
            lemma_pow2_pos(k as nat);
            let t = pow2(k as nat);
            assert(2 * u < one) by (nonlinear_arith)
                requires
                    u == m * t,
                    m < SIGNIFICAND_LIMIT,
                    one == t * pow2(drop as nat),
                    pow2(drop as nat) >= 2 * SIGNIFICAND_LIMIT,
                    t > 0,
            ;
            lemma_fundamental_div_mod_converse(
                (2 * u + one) as int,
                (2 * one) as int,
                0,
                (2 * u + one) as int,
            );
        }
        c = 0;
    } else {
        let whole: u128 = power_of_two(drop);
        proof {
            lemma2_to64_rest();
            if drop < 54 {
                lemma_pow2_strictly_increases(drop as nat, 54);
            }
            assert(whole <= 0x40_0000_0000_0000);
        }
        let twice: u128 = 2 * m as u128 + whole;
        proof {
            lemma_pow2_adds(k as nat, drop as nat);
            lemma_pow2_pos(k as nat);
            let t = pow2(k as nat);
            let floor = twice as int / (2 * whole) as int;
            let rest = twice as int % (2 * whole) as int;
            lemma_fundamental_div_mod(twice as int, (2 * whole) as int);
            assert(2 * u + one == floor * (2 * one) + rest * t) by (nonlinear_arith)
                requires
                    u == m * t,
                    one == t * whole,
                    twice == 2 * m + whole,
                    twice == (2 * whole) * floor + rest,
            ;
            assert(0 <= rest * t < 2 * one) by (nonlinear_arith)
                requires
                    0 <= rest < 2 * whole,
                    one == t * whole,
                    t > 0,
            ;
            lemma_fundamental_div_mod_converse(
                (2 * u + one) as int,
                (2 * one) as int,
                floor,
                rest * t,
            );
            assert(floor <= twice) by (nonlinear_arith)
                requires
                    twice == (2 * whole) * floor + rest,
                    rest >= 0,
                    whole >= 1,
                    twice >= 0,
            ;
        }
        c = (twice / (2 * whole)) as u64;
    }
    proof {
        lemma_pow2_strictly_increases(64, 117);
        assert((count * one) * pow2(BIAS as nat) == c * (1 * pow2((1074 + BIAS) as nat)))
            by (nonlinear_arith)
            requires
                count == c,
                pow2((1074 + BIAS) as nat) == one * pow2(BIAS as nat),
        ;
    }
    pack(c as u128, 1074 + BIAS, false, Ghost(count * one), Ghost(1))
}

} // verus!
