//! Rounding of exact quotients to the binary64 grid.
//!
//! Every finite binary64 magnitude is a whole number of *units* of two to the
//! minus 1074, the smallest positive magnitude of the format. A magnitude is
//! written as its 63 low bits, so that larger bits mean a larger magnitude.
use vstd::prelude::*;
use vstd::arithmetic::div_mod::*;
use vstd::arithmetic::mul::*;
use vstd::arithmetic::power2::*;

verus! {

/// Two to the power 52: the weight of the leading bit of a normal significand.
pub const HIDDEN_BIT: u64 = 0x10_0000_0000_0000;

/// Two to the power 53: one past the largest significand.
pub const SIGNIFICAND_LIMIT: u64 = 0x20_0000_0000_0000;

/// The magnitude of an infinity.
pub const INFINITE: u64 = 0x7FF0_0000_0000_0000;

/// The whole number nearest to `p / q`; a tie goes to the even neighbour.
pub open spec fn nearest(p: nat, q: nat) -> nat {
    let floor = p / q;
    let rest = p % q;
    if 2 * rest < q || (2 * rest == q && floor % 2 == 0) {
        floor
    } else {
        floor + 1
    }
}

/// No whole number is nearer to a quotient than the one it is rounded to, and of two that are
/// as near it is the even one.
pub proof fn law_nearest_is_nearest(p: nat, q: nat, other: nat)
    requires
        q > 0,
    ensures
        ({
            let n = nearest(p, q);
            let off = if n * q >= p {
                n * q - p
            } else {
                p - n * q
            };
            let other_off = if other * q >= p {
                other * q - p
            } else {
                p - other * q
            };
            &&& off <= other_off
            &&& other != n && off == other_off ==> n % 2 == 0
        }),
{
    let (f, r) = (p / q, p % q);
    assert(p == f * q + r) by {
        vstd::arithmetic::div_mod::lemma_fundamental_div_mod(p as int, q as int);
        assert(q * f == f * q) by (nonlinear_arith);
    }
    assert((f + 1) * q == f * q + q) by (nonlinear_arith);
    if other <= f {
        assert(other * q <= f * q) by (nonlinear_arith)
            requires
                other <= f,
        ;
        if other < f {
            assert((other + 1) * q <= f * q) by (nonlinear_arith)
                requires
                    other + 1 <= f,
            ;
            assert((other + 1) * q == other * q + q) by (nonlinear_arith);
        }
    } else {
        assert((f + 1) * q <= other * q) by (nonlinear_arith)
            requires
                f + 1 <= other,
        ;
        if other > f + 1 {
            assert((f + 2) * q <= other * q) by (nonlinear_arith)
                requires
                    f + 2 <= other,
            ;
            assert((f + 2) * q == f * q + q + q) by (nonlinear_arith);
        }
    }
}

/// The least `k` for which `p / q` is below `2^(53 + k)`: with a last place of
/// `2^k` units the quotient has no more than 53 significant bits.
pub open spec fn binade(p: nat, q: nat) -> nat
    decreases p - q,
{
    if q == 0 || p < q * SIGNIFICAND_LIMIT {
        0
    } else {
        binade(p, 2 * q) + 1
    }
}

/// The magnitude nearest to `p / q` units, ties to even, with overflow to infinity.
pub open spec fn rounded(p: nat, q: nat) -> nat {
    let k = binade(p, q);
    let magnitude = k * (HIDDEN_BIT as nat) + nearest(p, q * pow2(k));
    if magnitude < INFINITE {
        magnitude
    } else {
        INFINITE as nat
    }
}

/// Offset that keeps the exponents handed to `pack` from going below zero.
pub const BIAS: u32 = 1152;

/// `num / den` is `p * 2^e / 2^BIAS`, or, if `sticky`, lies strictly between that
/// and the same with `p + 1` in place of `p`.
pub open spec fn approximates(p: nat, e: nat, sticky: bool, num: nat, den: nat) -> bool {
    let x = num * pow2(BIAS as nat);
    let g = den * pow2(e);
    if sticky {
        p * g < x < (p + 1) * g
    } else {
        x == p * g
    }
}

proof fn lemma_binade_decides(num: nat, den: nat, k: nat)
    requires
        den > 0,
        num < den * pow2(53 + k),
        k > 0 ==> num >= den * pow2(52 + k),
    ensures
        binade(num, den) == k,
    decreases k,
{
    lemma2_to64_rest();
    if k > 0 {
        let j = (k - 1) as nat;
        lemma_pow2_unfold(53 + k);
        lemma_pow2_unfold(52 + k);
        if 53 < 52 + k {
            lemma_pow2_strictly_increases(53, 52 + k);
        }
        lemma_mul_inequality(pow2(53) as int, pow2(52 + k) as int, den as int);
        assert(den * pow2(53) == pow2(53) * den) by (nonlinear_arith);
        assert(den * pow2(52 + k) == pow2(52 + k) * den) by (nonlinear_arith);
        assert(den * pow2(53 + k) == (2 * den) * pow2(53 + j)) by (nonlinear_arith)
            requires
                pow2(53 + k) == 2 * pow2(53 + j),
        ;
        if j > 0 {
            lemma_pow2_unfold(52 + k);
            assert(den * pow2(52 + k) == (2 * den) * pow2(52 + j)) by (nonlinear_arith)
                requires
                    pow2(52 + k) == 2 * pow2(52 + j),
            ;
        }
        lemma_binade_decides(num, 2 * den, j);
    }
}

/// A quotient below `2^(53 + k)` keeps a last place of at most `2^k`.
pub proof fn lemma_binade_bounded(p: nat, q: nat, k: nat)
    requires
        q > 0,
        p < q * pow2(53 + k),
    ensures
        binade(p, q) <= k,
    decreases k,
{
    lemma2_to64_rest();
    if p >= q * SIGNIFICAND_LIMIT {
        assert(k > 0);
        let j = (k - 1) as nat;
        lemma_pow2_unfold(53 + k);
        assert(q * pow2(53 + k) == (2 * q) * pow2(53 + j)) by (nonlinear_arith)
            requires
                pow2(53 + k) == 2 * pow2(53 + j),
        ;
        lemma_binade_bounded(p, 2 * q, j);
    }
}

/// The significand left by rounding has at most 53 bits, or is `2^53` itself.
pub proof fn lemma_significand_bounded(p: nat, q: nat)
    requires
        q > 0,
    ensures
        nearest(p, q * pow2(binade(p, q))) <= SIGNIFICAND_LIMIT,
    decreases p - q,
{
    lemma2_to64();
    if p < q * SIGNIFICAND_LIMIT {
        assert(q * 1 == q) by (nonlinear_arith);
        lemma_fundamental_div_mod(p as int, q as int);
        assert(p / q < SIGNIFICAND_LIMIT) by (nonlinear_arith)
            requires
                p < q * SIGNIFICAND_LIMIT,
                p == q * (p / q) + p % q,
                p % q >= 0,
                q > 0,
        ;
    } else {
        assert(2 * q <= p) by (nonlinear_arith)
            requires
                p >= q * SIGNIFICAND_LIMIT,
                q > 0,
        ;
        lemma_significand_bounded(p, 2 * q);
        lemma_pow2_unfold(binade(p, q));
        let w = pow2(binade(p, 2 * q));
        assert((2 * q) * w == q * (2 * w)) by (nonlinear_arith);
    }
}

pub proof fn lemma_nearest_scales(p: nat, q: nat, c: nat)
    requires
        q > 0,
        c > 0,
    ensures
        nearest(p * c, q * c) == nearest(p, q),
{
    let floor = p / q;
    let rest = p % q;
    lemma_fundamental_div_mod(p as int, q as int);
    assert(p * c == floor * (q * c) + rest * c) by (nonlinear_arith)
        requires
            p == q * floor + rest,
    ;
    assert(0 <= rest * c < q * c) by (nonlinear_arith)
        requires
            0 <= rest < q,
            c > 0,
    ;
    lemma_fundamental_div_mod_converse(
        (p * c) as int,
        (q * c) as int,
        floor as int,
        (rest * c) as int,
    );
    assert(2 * (rest * c) < q * c <==> 2 * rest < q) by (nonlinear_arith)
        requires
            c > 0,
    ;
    assert(2 * (rest * c) == q * c <==> 2 * rest == q) by (nonlinear_arith)
        requires
            c > 0,
    ;
}

proof fn lemma_nearest_is_monotone(p: nat, larger: nat, q: nat)
    requires
        q > 0,
        p <= larger,
    ensures
        nearest(p, q) <= nearest(larger, q),
{
    lemma_div_is_ordered(p as int, larger as int, q as int);
    lemma_fundamental_div_mod(p as int, q as int);
    lemma_fundamental_div_mod(larger as int, q as int);
}

/// The magnitude before overflow is taken into account.
pub open spec fn unbounded(p: nat, q: nat) -> nat {
    binade(p, q) * (HIDDEN_BIT as nat) + nearest(p, q * pow2(binade(p, q)))
}

/// One binade up, the magnitude is the same but for the weight of the exponent.
pub proof fn lemma_unbounded_unfolds(p: nat, q: nat)
    requires
        q > 0,
    ensures
        p < q * SIGNIFICAND_LIMIT ==> unbounded(p, q) == nearest(p, q),
        p >= q * SIGNIFICAND_LIMIT ==> unbounded(p, q) == HIDDEN_BIT + unbounded(p, 2 * q),
{
    lemma2_to64();
    if p < q * SIGNIFICAND_LIMIT {
        assert(q * 1 == q) by (nonlinear_arith);
    } else {
        let k = binade(p, 2 * q);
        lemma_pow2_unfold(k + 1);
        assert((2 * q) * pow2(k) == q * (2 * pow2(k))) by (nonlinear_arith);
        assert((k + 1) * (HIDDEN_BIT as nat) == k * (HIDDEN_BIT as nat) + HIDDEN_BIT)
            by (nonlinear_arith);
    }
}

/// A quotient of at least `2^52` units has the magnitude of a normal number.
proof fn lemma_unbounded_normal(p: nat, q: nat)
    requires
        q > 0,
        p >= q * HIDDEN_BIT,
    ensures
        unbounded(p, q) >= HIDDEN_BIT,
{
    lemma_unbounded_unfolds(p, q);
    if p < q * SIGNIFICAND_LIMIT {
        lemma_fundamental_div_mod(p as int, q as int);
        assert(p / q >= HIDDEN_BIT) by (nonlinear_arith)
            requires
                p >= q * HIDDEN_BIT,
                p == q * (p / q) + p % q,
                p % q < q,
                q > 0,
        ;
    }
}

proof fn lemma_unbounded_is_monotone(p: nat, larger: nat, q: nat)
    requires
        q > 0,
        p <= larger,
    ensures
        unbounded(p, q) <= unbounded(larger, q),
    decreases p - q,
{
    lemma_unbounded_unfolds(p, q);
    lemma_unbounded_unfolds(larger, q);
    if larger < q * SIGNIFICAND_LIMIT {
        lemma_nearest_is_monotone(p, larger, q);
    } else if p < q * SIGNIFICAND_LIMIT {
        lemma_significand_bounded(p, q);
        lemma2_to64();
        assert(q * 1 == q) by (nonlinear_arith);
        assert(larger >= (2 * q) * HIDDEN_BIT) by (nonlinear_arith)
            requires
                larger >= q * SIGNIFICAND_LIMIT,
                SIGNIFICAND_LIMIT == 2 * HIDDEN_BIT,
        ;
        lemma_unbounded_normal(larger, 2 * q);
    } else {
        assert(2 * q <= p) by (nonlinear_arith)
            requires
                p >= q * SIGNIFICAND_LIMIT,
                q > 0,
        ;
        lemma_unbounded_is_monotone(p, larger, 2 * q);
    }
}

/// Rounding keeps the order of quotients.
pub proof fn lemma_rounded_is_monotone(p: nat, larger: nat, q: nat)
    requires
        q > 0,
        p <= larger,
    ensures
        rounded(p, q) <= rounded(larger, q),
{
    lemma_unbounded_is_monotone(p, larger, q);
}

proof fn lemma_binade_scales(p: nat, q: nat, c: nat)
    requires
        q > 0,
        c > 0,
    ensures
        binade(p * c, q * c) == binade(p, q),
    decreases p - q,
{
    assert(q * c > 0) by (nonlinear_arith)
        requires
            q > 0,
            c > 0,
    ;
    assert(p * c < (q * c) * SIGNIFICAND_LIMIT <==> p < q * SIGNIFICAND_LIMIT)
        by (nonlinear_arith)
        requires
            c > 0,
    ;
    if p >= q * SIGNIFICAND_LIMIT {
        assert(2 * q <= p) by (nonlinear_arith)
            requires
                p >= q * SIGNIFICAND_LIMIT,
                q > 0,
        ;
        lemma_binade_scales(p, 2 * q, c);
        assert((2 * q) * c == 2 * (q * c)) by (nonlinear_arith);
    }
}

/// Rounding depends on the quotient alone.
pub proof fn lemma_rounded_scales(p: nat, q: nat, c: nat)
    requires
        q > 0,
        c > 0,
    ensures
        rounded(p * c, q * c) == rounded(p, q),
{
    lemma_binade_scales(p, q, c);
    let w = pow2(binade(p, q));
    lemma_pow2_pos(binade(p, q));
    assert((q * c) * w == (q * w) * c) by (nonlinear_arith);
    assert(q * w > 0) by (nonlinear_arith)
        requires
            q > 0,
            w > 0,
    ;
    lemma_nearest_scales(p, q * w, c);
}

/// A larger divisor gives no larger quotient.
pub proof fn lemma_rounded_falls_with_divisor(p: nat, q: nat, larger: nat)
    requires
        0 < q <= larger,
    ensures
        rounded(p, larger) <= rounded(p, q),
{
    lemma_rounded_scales(p, larger, q);
    lemma_rounded_scales(p, q, larger);
    assert(p * q <= p * larger) by (nonlinear_arith)
        requires
            q <= larger,
    ;
    assert(larger * q == q * larger) by (nonlinear_arith);
    assert(larger * q > 0) by (nonlinear_arith)
        requires
            q > 0,
            larger > 0,
    ;
    lemma_rounded_is_monotone(p * q, p * larger, larger * q);
}

/// A whole significand of 53 bits at its own place is rounded to itself.
pub proof fn lemma_rounded_keeps_significand(significand: nat, k: nat)
    requires
        significand < SIGNIFICAND_LIMIT,
        k > 0 ==> significand >= HIDDEN_BIT,
        k * (HIDDEN_BIT as nat) + significand < INFINITE,
    ensures
        rounded(significand * pow2(k), 1) == k * (HIDDEN_BIT as nat) + significand,
{
    let p = significand * pow2(k);
    lemma2_to64();
    lemma2_to64_rest();
    lemma_pow2_pos(k);
    lemma_pow2_adds(53, k);
    assert(p < 1 * pow2(53 + k)) by (nonlinear_arith)
        requires
            p == significand * pow2(k),
            significand < pow2(53),
            pow2(53 + k) == pow2(53) * pow2(k),
            pow2(k) > 0,
    ;
    if k > 0 {
        lemma_pow2_adds(52, k);
        assert(p >= 1 * pow2(52 + k)) by (nonlinear_arith)
            requires
                p == significand * pow2(k),
                significand >= pow2(52),
                pow2(52 + k) == pow2(52) * pow2(k),
                pow2(k) > 0,
        ;
    }
    lemma_binade_decides(p, 1, k);
    lemma_nearest_scales(significand, 1, pow2(k));
    assert(nearest(significand, 1) == significand);
}

/// Cutting `drop` bits off `p`, with the bits already lost summed up in `sticky`,
/// decides the rounding of every `x` that `p` stands for.
proof fn lemma_nearest_from_bits(x: nat, g: nat, p: nat, half: nat, sticky: bool)
    requires
        g > 0,
        half > 0,
        if sticky {
            p * g < x < (p + 1) * g
        } else {
            x == p * g
        },
    ensures
        nearest(x, g * (2 * half)) == {
            let floor = p / (2 * half);
            let rest = p % (2 * half);
            if rest < half || (rest == half && !sticky && floor % 2 == 0) {
                floor
            } else {
                floor + 1
            }
        },
{
    let w = 2 * half;
    let d = g * w;
    let floor = p / w;
    let rest = p % w;
    lemma_fundamental_div_mod(p as int, w as int);
    let r = x - floor * d;
    assert(p * g == floor * d + rest * g) by (nonlinear_arith)
        requires
            p == w * floor + rest,
            d == g * w,
    ;
    assert((p + 1) * g == p * g + g) by (nonlinear_arith);
    assert((rest + 1) * g == rest * g + g) by (nonlinear_arith);
    assert((rest + 1) * g <= d) by (nonlinear_arith)
        requires
            rest + 1 <= w,
            d == g * w,
            g > 0,
    ;
    assert(rest * g >= 0) by (nonlinear_arith)
        requires
            rest >= 0,
            g > 0,
    ;
    assert(d == 2 * (half * g)) by (nonlinear_arith)
        requires
            d == g * (2 * half),
    ;
    assert(g > 0 && w > 0 ==> d > 0) by (nonlinear_arith)
        requires
            d == g * w,
    ;
    lemma_fundamental_div_mod_converse(x as int, d as int, floor as int, r);
    if rest < half {
        assert((rest + 1) * g <= half * g) by (nonlinear_arith)
            requires
                rest + 1 <= half,
                g > 0,
        ;
    } else if rest > half {
        assert(rest * g >= half * g + g) by (nonlinear_arith)
            requires
                rest >= half + 1,
                g > 0,
        ;
    }
}

proof fn lemma_nearest_of_multiple(m: nat, d: nat)
    requires
        d > 0,
    ensures
        nearest(m * d, d) == m,
{
    lemma_fundamental_div_mod_converse((m * d) as int, d as int, m as int, 0);
}

/// Two to the power `n`.
pub(crate) fn power_of_two(n: u32) -> (r: u128)
    requires
        n <= 120,
    ensures
        r == pow2(n as nat),
        r > 0,
{
    let mut r: u128 = 1;
    let mut i: u32 = 0;
    proof {
        lemma2_to64();
    }
    while i < n
        invariant
            i <= n <= 120,
            r == pow2(i as nat),
            r > 0,
        decreases n - i,
    {
        proof {
            lemma_pow2_unfold((i + 1) as nat);
            lemma_power_fits((i + 1) as nat);
        }
        r = r * 2;
        i = i + 1;
    }
    r
}

pub proof fn lemma_power_fits(n: nat)
    requires
        n <= 120,
    ensures
        pow2(n) <= 0x100_0000_0000_0000_0000_0000_0000_0000u128,
{
    lemma2_to64();
    lemma_pow2_adds(60, 60);
    lemma2_to64_rest();
    if n < 120 {
        lemma_pow2_strictly_increases(n, 120);
    }
    assert(0x1000_0000_0000_0000int * 0x1000_0000_0000_0000int
        == 0x100_0000_0000_0000_0000_0000_0000_0000int) by (nonlinear_arith);
}

/// Number of bits that `p` takes up.
fn bit_length(p: u128) -> (n: u32)
    requires
        0 < p < pow2(117),
    ensures
        1 <= n <= 117,
        pow2((n - 1) as nat) <= p < pow2(n as nat),
{
    let mut n: u32 = 0;
    let mut bound: u128 = 1;
    proof {
        lemma2_to64();
    }
    while bound <= p
        invariant
            n <= 117,
            0 < p < pow2(117),
            bound == pow2(n as nat),
            n > 0 ==> pow2((n - 1) as nat) <= p,
            n == 0 ==> bound == 1,
        decreases 117 - n,
    {
        proof {
            lemma_pow2_unfold((n + 1) as nat);
            lemma_power_fits((n + 1) as nat);
        }
        bound = bound * 2;
        n = n + 1;
    }
    n
}

/// `p` has `n` bits and `num / den` is what `p` and `e` say: then the last place
/// kept is `2^k` units, with `k` as below.
proof fn lemma_binade_from_bits(p: nat, n: nat, e: nat, sticky: bool, num: nat, den: nat)
    requires
        den > 0,
        n > 0,
        pow2((n - 1) as nat) <= p < pow2(n),
        approximates(p, e, sticky, num, den),
    ensures
        binade(num, den) == if n + e > BIAS + 53 {
            n + e - BIAS - 53
        } else {
            0
        },
{
    let k: nat = if n + e > BIAS + 53 {
        (n + e - BIAS - 53) as nat
    } else {
        0
    };
    let b = pow2(BIAS as nat);
    let x = num * b;
    let g = den * pow2(e);
    lemma_pow2_pos(BIAS as nat);
    lemma_pow2_pos(e);
    assert(g > 0) by (nonlinear_arith)
        requires
            den > 0,
            pow2(e) > 0,
            g == den * pow2(e),
    ;
    assert((p + 1) * g == p * g + g) by (nonlinear_arith);
    // Above: num / den stays below 2^(53 + k).
    lemma_pow2_adds(n, e);
    lemma_pow2_adds(53 + k, BIAS as nat);
    if n + e < 53 + k + BIAS {
        lemma_pow2_strictly_increases(n + e, 53 + k + BIAS as nat);
    }
    assert((p + 1) * g <= pow2(n) * g) by (nonlinear_arith)
        requires
            p + 1 <= pow2(n),
            g > 0,
    ;
    assert(pow2(n) * g == den * pow2(n + e)) by (nonlinear_arith)
        requires
            g == den * pow2(e),
            pow2(n + e) == pow2(n) * pow2(e),
    ;
    assert(den * pow2(n + e) <= den * pow2(53 + k + BIAS as nat)) by (nonlinear_arith)
        requires
            pow2(n + e) <= pow2(53 + k + BIAS as nat),
            den > 0,
    ;
    assert(den * pow2(53 + k + BIAS as nat) == (den * pow2(53 + k)) * b) by (nonlinear_arith)
        requires
            pow2(53 + k + BIAS as nat) == pow2(53 + k) * b,
    ;
    assert(num < den * pow2(53 + k)) by (nonlinear_arith)
        requires
            num * b < (den * pow2(53 + k)) * b,
            b > 0,
    ;
    // Below: with k > 0 it reaches 2^(52 + k).
    if k > 0 {
        let m = (n - 1) as nat;
        lemma_pow2_adds(m, e);
        lemma_pow2_adds(52 + k, BIAS as nat);
        assert(m + e == 52 + k + BIAS);
        assert(p * g >= pow2(m) * g) by (nonlinear_arith)
            requires
                p >= pow2(m),
                g > 0,
        ;
        assert(pow2(m) * g == den * pow2(m + e)) by (nonlinear_arith)
            requires
                g == den * pow2(e),
                pow2(m + e) == pow2(m) * pow2(e),
        ;
        assert(den * pow2(52 + k + BIAS as nat) == (den * pow2(52 + k)) * b) by (nonlinear_arith)
            requires
                pow2(52 + k + BIAS as nat) == pow2(52 + k) * b,
        ;
        assert(num >= den * pow2(52 + k)) by (nonlinear_arith)
            requires
                num * b >= (den * pow2(52 + k)) * b,
                b > 0,
        ;
    }
    lemma_binade_decides(num, den, k);
}

/// The significand that rounding leaves when `p` has to be widened by `up` bits.
proof fn lemma_nearest_widened(p: nat, e: nat, up: nat, k: nat, num: nat, den: nat)
    requires
        den > 0,
        approximates(p, e, false, num, den),
        e == BIAS + k + up,
    ensures
        nearest(num, den * pow2(k)) == p * pow2(up),
{
    let b = pow2(BIAS as nat);
    let d = den * pow2(k) * b;
    lemma_pow2_pos(BIAS as nat);
    lemma_pow2_pos(k);
    assert(den * pow2(k) > 0) by (nonlinear_arith)
        requires
            den > 0,
            pow2(k) > 0,
    ;
    lemma_pow2_adds(BIAS as nat, k);
    lemma_pow2_adds(BIAS as nat + k, up);
    lemma_nearest_scales(num, den * pow2(k), b);
    assert(num * b == (p * pow2(up)) * d) by (nonlinear_arith)
        requires
            num * b == p * (den * pow2(e)),
            pow2(e) == (b * pow2(k)) * pow2(up),
            d == den * pow2(k) * b,
    ;
    assert(d > 0) by (nonlinear_arith)
        requires
            d == (den * pow2(k)) * b,
            den * pow2(k) > 0,
            b > 0,
    ;
    lemma_nearest_of_multiple(p * pow2(up), d);
}

/// The same when `down` bits of `p` have to go.
proof fn lemma_nearest_narrowed(
    p: nat,
    e: nat,
    sticky: bool,
    down: nat,
    k: nat,
    num: nat,
    den: nat,
)
    requires
        den > 0,
        down > 0,
        approximates(p, e, sticky, num, den),
        e + down == BIAS + k,
    ensures
        nearest(num, den * pow2(k)) == {
            let half = pow2((down - 1) as nat);
            let floor = p / (2 * half);
            let rest = p % (2 * half);
            if rest < half || (rest == half && !sticky && floor % 2 == 0) {
                floor
            } else {
                floor + 1
            }
        },
{
    let b = pow2(BIAS as nat);
    let half = pow2((down - 1) as nat);
    let g = den * pow2(e);
    lemma_pow2_pos(BIAS as nat);
    lemma_pow2_pos(k);
    lemma_pow2_pos(e);
    lemma_pow2_pos((down - 1) as nat);
    lemma_pow2_unfold(down);
    lemma_pow2_adds(e, down);
    lemma_pow2_adds(BIAS as nat, k);
    assert(den * pow2(k) > 0) by (nonlinear_arith)
        requires
            den > 0,
            pow2(k) > 0,
    ;
    assert(g > 0) by (nonlinear_arith)
        requires
            den > 0,
            pow2(e) > 0,
            g == den * pow2(e),
    ;
    lemma_nearest_scales(num, den * pow2(k), b);
    assert((den * pow2(k)) * b == g * (2 * half)) by (nonlinear_arith)
        requires
            g == den * pow2(e),
            pow2(e) * (2 * half) == b * pow2(k),
    ;
    lemma_nearest_from_bits(num * b, g, p, half, sticky);
}

/// Rounds the quotient that `p`, `e` and `sticky` stand for to a magnitude.
pub(crate) fn pack(
    p: u128,
    e: u32,
    sticky: bool,
    Ghost(num): Ghost<nat>,
    Ghost(den): Ghost<nat>,
) -> (magnitude: u64)
    requires
        den > 0,
        p < pow2(117),
        e <= 100_000,
        approximates(p as nat, e as nat, sticky, num, den),
        sticky ==> p >= HIDDEN_BIT * 4,
    ensures
        magnitude == rounded(num, den),
        magnitude <= INFINITE,
{
    proof {
        lemma2_to64();
        lemma2_to64_rest();
        lemma_pow2_pos(BIAS as nat);
        lemma_pow2_pos(e as nat);
    }
    if p == 0 {
        proof {
            let b = pow2(BIAS as nat);
            assert(num * b == 0 && b > 0 ==> num == 0) by (nonlinear_arith);
            assert(0 * (den * pow2(e as nat)) == 0) by (nonlinear_arith);
            assert(0 < den * SIGNIFICAND_LIMIT) by (nonlinear_arith)
                requires
                    den > 0,
            ;
            assert(den * 1 == den) by (nonlinear_arith);
            lemma_nearest_of_multiple(0, den);
            assert(0 * den == 0) by (nonlinear_arith);
        }
        return 0;
    }
    let n: u32 = bit_length(p);
    proof {
        lemma_binade_from_bits(p as nat, n as nat, e as nat, sticky, num, den);
    }
    let k: u32 = if n + e > BIAS + 53 {
        n + e - BIAS - 53
    } else {
        0
    };
    if k > 2047 {
        return INFINITE;
    }
    let significand: u64;
    if e >= BIAS + k {
        let up: u32 = e - BIAS - k;
        proof {
            if sticky && n <= 53 {
                if n < 53 {
                    lemma_pow2_strictly_increases(n as nat, 53);
                }
                assert(false);
            }
            assert(n + up <= 53);
            lemma_nearest_widened(p as nat, e as nat, up as nat, k as nat, num, den);
            lemma_pow2_adds(n as nat, up as nat);
            lemma_pow2_pos(up as nat);
            if n + up < 53 {
                lemma_pow2_strictly_increases((n + up) as nat, 53);
            }
            assert(p * pow2(up as nat) < pow2(n as nat) * pow2(up as nat)) by (nonlinear_arith)
                requires
                    p < pow2(n as nat),
                    pow2(up as nat) > 0,
            ;
        }
        significand = (p * power_of_two(up)) as u64;
    } else {
        let down: u32 = BIAS + k - e;
        proof {
            lemma_nearest_narrowed(
                p as nat,
                e as nat,
                sticky,
                down as nat,
                k as nat,
                num,
                den,
            );
            lemma_pow2_unfold(down as nat);
        }
        if down > 120 {
            proof {
                lemma_pow2_strictly_increases(117, (down - 1) as nat);
                lemma_small_mod(p as nat, pow2(down as nat));
                lemma_basic_div(p as int, pow2(down as nat) as int);
            }
            significand = 0;
        } else {
            let half: u128 = power_of_two(down - 1);
            let whole: u128 = power_of_two(down);
            let floor: u128 = p / whole;
            let rest: u128 = p % whole;
            proof {
                // n <= 53 + down, so what is left has at most 53 bits.
                assert(n <= 53 + down);
                lemma_pow2_adds(53, down as nat);
                if n < 53 + down {
                    lemma_pow2_strictly_increases(n as nat, (53 + down) as nat);
                }
                lemma_fundamental_div_mod(p as int, whole as int);
                assert(floor < SIGNIFICAND_LIMIT) by (nonlinear_arith)
                    requires
                        p < SIGNIFICAND_LIMIT * whole,
                        whole * floor <= p,
                        whole > 0,
                ;
            }
            significand = if rest < half || (rest == half && !sticky && floor % 2 == 0) {
                floor as u64
            } else {
                floor as u64 + 1
            };
        }
    }
    let magnitude: u64 = k as u64 * HIDDEN_BIT + significand;
    if magnitude < INFINITE {
        magnitude
    } else {
        INFINITE
    }
}

} // verus!
