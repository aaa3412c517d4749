//! Binary64 values written out with a fixed number of decimals, or in as few digits as tell
//! them apart (`shortest`).
use vstd::prelude::*;
use vstd::arithmetic::div_mod::*;
use vstd::arithmetic::power2::*;
use crate::double;
use crate::double::worth::{lemma_worth, size};
use crate::double::{Double, SIGN_BIT};
use crate::rounding;
use crate::rounding::INFINITE;
use crate::text;

pub mod shortest;

verus! {

/// The most decimals that are written.
pub const MAX_DECIMALS: u32 = 19;

/// Ten to the power `n`.
pub open spec fn ten_to(n: nat) -> nat
    decreases n,
{
    if n == 0 {
        1
    } else {
        10 * ten_to((n - 1) as nat)
    }
}

/// A finite value as a count of its last decimal: the nearest whole count, ties to even.
pub open spec fn counted(x: Double, decimals: nat) -> nat {
    rounding::nearest(double::units(x.magnitude()) * ten_to(decimals), pow2(1074))
}

/// The last `count` digits of `n`.
pub open spec fn last_digits(n: nat, count: nat) -> Seq<char>
    decreases count,
{
    if count == 0 {
        Seq::empty()
    } else {
        last_digits(n / 10, (count - 1) as nat).push(text::digit(n % 10))
    }
}

/// A value with a fixed number of decimals.
pub open spec fn fixed_text(x: Double, decimals: nat) -> Seq<char> {
    let sign = if x.negative() {
        "-"@
    } else {
        ""@
    };
    if x.undefined() {
        "NaN"@
    } else if x.infinite() {
        sign + "inf"@
    } else {
        let count = counted(x, decimals);
        let whole = sign + text::numeral(count / ten_to(decimals));
        if decimals == 0 {
            whole
        } else {
            whole + "."@ + last_digits(count, decimals)
        }
    }
}

/// The last digits of a number are a row of as many digits, which reads as what the number
/// leaves of the power of ten.
pub proof fn law_last_digits_read_back(n: nat, count: nat)
    ensures
        last_digits(n, count).len() == count,
        forall|i: int| 0 <= i < count ==> '0' <= #[trigger] last_digits(n, count)[i] <= '9',
        text::reading(last_digits(n, count)) == n % ten_to(count),
    decreases count,
{
    if count > 0 {
        let less = (count - 1) as nat;
        let (shown, head) = (last_digits(n, count), last_digits(n / 10, less));
        let t = ten_to(less);
        law_last_digits_read_back(n / 10, less);
        lemma_ten_to_positive(less);
        assert(shown.drop_last() =~= head);
        assert forall|i: int| 0 <= i < count implies '0' <= #[trigger] shown[i] <= '9' by {
            if i < less {
                assert(shown[i] == head[i]);
            }
        }
        lemma_breakdown(n as int, 10, t as int);
    }
}

/// A finite value with a fixed number of decimals is written as its sign, a whole part, a
/// point and as many digits, and what is read off them is off by half the last digit at most.
pub proof fn law_fixed_text_is_near(x: Double, decimals: nat)
    requires
        x.finite(),
        decimals > 0,
    ensures
        ({
            let shown = fixed_text(x, decimals);
            let body = if x.negative() {
                shown.drop_first()
            } else {
                shown
            };
            let point = body.len() - decimals - 1;
            let count = text::reading(body.take(point)) * ten_to(decimals) + text::reading(
                body.skip(point + 1),
            );
            &&& x.negative() ==> shown.len() > 0 && shown[0] == '-'
            &&& point >= 1
            &&& body[point] == '.'
            &&& size(count as real - size(x.worth()) * ten_to(decimals) as real) * 2 as real
                <= 1 as real
        }),
{
    reveal_strlit("-");
    reveal_strlit("");
    reveal_strlit(".");
    let count = counted(x, decimals);
    let t = ten_to(decimals);
    let (whole, rest) = (text::numeral(count / t), last_digits(count, decimals));
    let shown = fixed_text(x, decimals);
    let body = if x.negative() {
        shown.drop_first()
    } else {
        shown
    };
    let point = body.len() - decimals - 1;
    text::law_numeral_reads_back(count / t);
    law_last_digits_read_back(count, decimals);
    lemma_ten_to_positive(decimals);
    assert(body =~= whole + "."@ + rest);
    assert(body.take(point) =~= whole);
    assert(body.skip(point + 1) =~= rest);
    assert((count / t) * t + count % t == count) by (nonlinear_arith)
        requires
            t > 0,
    ;
    let w = pow2(1074);
    let u = double::units(x.magnitude());
    lemma_pow2_pos(1074);
    rounding::law_nearest_is_nearest(u * t, w, (u * t) / w);
    rounding::law_nearest_is_nearest(u * t, w, (u * t) / w + 1);
    let p = u * t;
    let f = p / w;
    assert(p == f * w + p % w && (f + 1) * w == f * w + w) by (nonlinear_arith)
        requires
            w > 0,
            f == p / w,
    ;
    lemma_worth(x);
    let (c, s, v) = (count as real, size(x.worth()), w as real);
    assert(2 * (count * w - p) <= w && 2 * (p - count * w) <= w);
    assert((count * w) as real == c * v) by (nonlinear_arith)
        requires
            c == count as real,
            v == w as real,
    ;
    assert(p as real == u as real * t as real) by (nonlinear_arith)
        requires
            p == u * t,
    ;
    let exact = s * t as real;
    assert(exact * v == p as real) by (nonlinear_arith)
        requires
            p as real == u as real * t as real,
            s * v == u as real,
            exact == s * t as real,
    ;
    assert(size(c - exact) * 2 as real <= 1 as real) by (nonlinear_arith)
        requires
            2 as real * (c * v - exact * v) <= v,
            2 as real * (exact * v - c * v) <= v,
            v > 0 as real,
            size(c - exact) == c - exact || size(c - exact) == exact - c,
    ;
}

/// The number whose decimal digits are `digits`, the lowest first.
spec fn value(digits: Seq<u8>) -> nat
    decreases digits.len(),
{
    if digits.len() == 0 {
        0
    } else {
        digits[0] as nat + 10 * value(digits.drop_first())
    }
}

/// Every digit is below ten.
spec fn are_digits(digits: Seq<u8>) -> bool {
    forall|i: int| 0 <= i < digits.len() ==> #[trigger] digits[i] < 10
}

/// The highest digit is not zero.
spec fn leads(digits: Seq<u8>) -> bool {
    digits.len() > 0 ==> digits.last() > 0
}

/// The digits as they are written, the highest first.
spec fn shown(digits: Seq<u8>) -> Seq<char> {
    Seq::new(digits.len(), |i: int| text::digit(digits[digits.len() - 1 - i] as nat))
}

proof fn lemma_value_push(digits: Seq<u8>, d: u8)
    ensures
        value(digits.push(d)) == value(digits) + ten_to(digits.len()) * d,
    decreases digits.len(),
{
    let more = digits.push(d);
    if digits.len() == 0 {
        assert(value(more.drop_first()) == 0);
        assert(value(digits) == 0);
        assert(1 * d == d) by (nonlinear_arith);
    } else {
        let rest = digits.drop_first();
        lemma_value_push(rest, d);
        assert(more.drop_first() =~= rest.push(d));
        let t = ten_to(rest.len());
        assert(ten_to(digits.len()) == 10 * t);
        assert(10 * (value(rest) + t * d) == 10 * value(rest) + (10 * t) * d) by (nonlinear_arith);
    }
}

proof fn lemma_value_positive(digits: Seq<u8>)
    requires
        digits.len() > 0,
        digits.last() > 0,
    ensures
        value(digits) > 0,
    decreases digits.len(),
{
    if digits.len() > 1 {
        lemma_value_positive(digits.drop_first());
    }
}

proof fn lemma_value_splits(digits: Seq<u8>)
    requires
        are_digits(digits),
        digits.len() > 0,
    ensures
        value(digits) / 10 == value(digits.drop_first()),
        value(digits) % 10 == digits[0],
        are_digits(digits.drop_first()),
{
    assert(digits[0] < 10);
    assert forall|i: int| 0 <= i < digits.drop_first().len() implies
        #[trigger] digits.drop_first()[i] < 10 by {
        assert(digits[i + 1] < 10);
    }
}

proof fn lemma_shown_is_numeral(digits: Seq<u8>)
    requires
        are_digits(digits),
        digits.len() > 0,
        digits.len() == 1 || digits.last() > 0,
    ensures
        shown(digits) == text::numeral(value(digits)),
    decreases digits.len(),
{
    lemma_value_splits(digits);
    let rest = digits.drop_first();
    if digits.len() == 1 {
        assert(value(rest) == 0);
        assert(shown(digits) =~= seq![text::digit(digits[0] as nat)]);
    } else {
        lemma_value_positive(rest);
        lemma_shown_is_numeral(rest);
        assert(shown(digits) =~= shown(rest).push(text::digit(digits[0] as nat)));
    }
}

proof fn lemma_ten_to_positive(n: nat)
    ensures
        ten_to(n) > 0,
    decreases n,
{
    if n > 0 {
        lemma_ten_to_positive((n - 1) as nat);
    }
}

/// The lowest digits are the last ones of the number, and the others are those of the number
/// without them.
proof fn lemma_digits_part(digits: Seq<u8>, count: nat)
    requires
        are_digits(digits),
        count <= digits.len(),
    ensures
        last_digits(value(digits), count) == shown(digits.take(count as int)),
        value(digits) / ten_to(count) == value(digits.skip(count as int)),
    decreases count,
{
    if count == 0 {
        assert(digits.skip(0) =~= digits);
        assert(ten_to(0) == 1);
        assert(shown(digits.take(0)) =~= Seq::<char>::empty());
    } else {
        let rest = digits.drop_first();
        let fewer = (count - 1) as nat;
        lemma_value_splits(digits);
        lemma_digits_part(rest, fewer);
        assert(digits.skip(count as int) =~= rest.skip(fewer as int));
        assert(shown(digits.take(count as int)) =~= shown(rest.take(fewer as int)).push(
            text::digit(digits[0] as nat),
        ));
        lemma_ten_to_positive(fewer);
        lemma_div_denominator(value(digits) as int, 10, ten_to(fewer) as int);
        assert(ten_to(count) == 10 * ten_to(fewer));
    }
}

/// The decimal digits of `n`, the lowest first.
fn digits_of(n: u128) -> (r: Vec<u8>)
    ensures
        value(r@) == n,
        are_digits(r@),
        leads(r@),
{
    let mut r: Vec<u8> = Vec::new();
    let mut rest: u128 = n;
    assert(1 * rest == rest) by (nonlinear_arith);
    while rest > 0
        invariant
            n == value(r@) + ten_to(r@.len()) * rest,
            are_digits(r@),
            rest == 0 ==> leads(r@),
        decreases rest,
    {
        let d: u8 = (rest % 10) as u8;
        let higher: u128 = rest / 10;
        proof {
            lemma_value_push(r@, d);
            let t = ten_to(r@.len());
            assert(t * rest == t * d + (10 * t) * higher) by (nonlinear_arith)
                requires
                    rest == d + 10 * higher,
            ;
        }
        r.push(d);
        rest = higher;
    }
    assert(ten_to(r@.len()) * 0 == 0) by (nonlinear_arith);
    r
}

/// The digits of a small multiple of the number.
fn multiple(digits: &Vec<u8>, factor: u8) -> (r: Vec<u8>)
    requires
        0 < factor < 10,
        are_digits(digits@),
        leads(digits@),
    ensures
        value(r@) == factor * value(digits@),
        are_digits(r@),
        leads(r@),
{
    let mut r: Vec<u8> = Vec::new();
    let mut carry: u8 = 0;
    let mut i: usize = 0;
    assert(digits@.take(0) =~= Seq::<u8>::empty());
    assert(factor * 0 == 0) by (nonlinear_arith);
    while i < digits.len()
        invariant
            0 < factor < 10,
            i <= digits@.len(),
            r@.len() == i,
            carry < factor,
            are_digits(digits@),
            leads(digits@),
            are_digits(r@),
            factor * value(digits@.take(i as int)) == value(r@) + ten_to(i as nat) * carry,
            i == digits@.len() && carry == 0 ==> leads(r@),
        decreases digits.len() - i,
    {
        let here: u8 = digits[i];
        assert(here < 10) by {
            assert(digits@[i as int] < 10);
        }
        assert(factor * here <= 81) by (nonlinear_arith)
            requires
                factor < 10,
                here < 10,
        ;
        let total: u8 = factor * here + carry;
        let d: u8 = total % 10;
        let next: u8 = total / 10;
        proof {
            let t = ten_to(i as nat);
            let low = value(digits@.take(i as int));
            assert(digits@.take(i + 1) =~= digits@.take(i as int).push(here));
            lemma_value_push(digits@.take(i as int), here);
            lemma_value_push(r@, d);
            assert(next < factor) by (nonlinear_arith)
                requires
                    total == factor * here + carry,
                    here < 10,
                    carry < factor,
                    next == total / 10,
            ;
            assert(factor * (low + t * here) == factor * low + t * (factor * here))
                by (nonlinear_arith);
            assert(t * (factor * here) + t * carry == t * d + (10 * t) * next) by (nonlinear_arith)
                requires
                    factor * here + carry == d + 10 * next,
            ;
            if i + 1 == digits@.len() && next == 0 {
                assert(here > 0);
                assert(factor * here > 0) by (nonlinear_arith)
                    requires
                        factor > 0,
                        here > 0,
                ;
            }
        }
        r.push(d);
        carry = next;
        i = i + 1;
    }
    assert(digits@.take(i as int) =~= digits@);
    if carry > 0 {
        proof {
            lemma_value_push(r@, carry);
        }
        r.push(carry);
    } else {
        assert(ten_to(i as nat) * 0 == 0) by (nonlinear_arith);
    }
    r
}

/// Ten to the power `n`.
fn power_of_ten(n: u32) -> (r: u64)
    requires
        n <= MAX_DECIMALS,
    ensures
        r == ten_to(n as nat),
{
    let mut r: u64 = 1;
    let mut i: u32 = 0;
    while i < n
        invariant
            i <= n <= MAX_DECIMALS,
            r == ten_to(i as nat),
        decreases n - i,
    {
        proof {
            lemma_powers_of_ten_fit((i + 1) as nat);
        }
        r = r * 10;
        i = i + 1;
    }
    r
}

proof fn lemma_powers_of_ten_fit(n: nat)
    requires
        n <= MAX_DECIMALS,
    ensures
        ten_to(n) <= 10_000_000_000_000_000_000,
    decreases MAX_DECIMALS - n,
{
    if n < MAX_DECIMALS {
        lemma_powers_of_ten_fit(n + 1);
    } else {
        reveal_with_fuel(ten_to, 20);
    }
}

/// The digits of the count that a finite value is written as.
fn count_digits(x: Double, decimals: u32) -> (r: Vec<u8>)
    requires
        x.finite(),
        decimals <= MAX_DECIMALS,
    ensures
        value(r@) == counted(x, decimals as nat),
        are_digits(r@),
        leads(r@),
{
    let (significand, exponent): (u64, u32) = double::unpack(x.bits % SIGN_BIT);
    let scale: u64 = power_of_ten(decimals);
    let ghost s = significand as nat;
    let ghost t = scale as nat;
    let ghost u = double::units(x.magnitude());
    proof {
        lemma2_to64();
        lemma2_to64_rest();
        lemma_pow2_adds(53, 64);
        assert(s * t < pow2(117)) by (nonlinear_arith)
            requires
                s < pow2(53),
                t < pow2(64),
                pow2(117) == pow2(53) * pow2(64),
        ;
        rounding::lemma_power_fits(117);
        lemma_pow2_pos(exponent as nat);
        lemma_pow2_pos(1074);
    }
    let scaled: u128 = significand as u128 * scale as u128;
    if exponent >= 1074 {
        let shift: u32 = exponent - 1074;
        let mut digits: Vec<u8> = digits_of(scaled);
        let mut i: u32 = 0;
        assert((s * t) * 1 == s * t) by (nonlinear_arith);
        while i < shift
            invariant
                i <= shift,
                value(digits@) == (s * t) * pow2(i as nat),
                are_digits(digits@),
                leads(digits@),
            decreases shift - i,
        {
            digits = multiple(&digits, 2);
            proof {
                lemma_pow2_unfold((i + 1) as nat);
                let w = pow2(i as nat);
                assert(2 * ((s * t) * w) == (s * t) * (2 * w)) by (nonlinear_arith);
            }
            i = i + 1;
        }
        proof {
            let w = pow2(shift as nat);
            let q = pow2(1074);
            let n = (s * t) * w;
            lemma_pow2_adds(shift as nat, 1074);
            assert(u * t == n * q) by (nonlinear_arith)
                requires
                    u == s * pow2(exponent as nat),
                    pow2(exponent as nat) == w * q,
                    n == (s * t) * w,
            ;
            rounding::lemma_nearest_scales(n, 1, q);
            assert(1 * q == q) by (nonlinear_arith);
            assert(rounding::nearest(n, 1) == n);
        }
        digits
    } else {
        let drop: u32 = 1074 - exponent;
        proof {
            let w = pow2(exponent as nat);
            lemma_pow2_adds(drop as nat, exponent as nat);
            assert(u * t == (s * t) * w) by (nonlinear_arith)
                requires
                    u == s * w,
            ;
            lemma_pow2_pos(drop as nat);
            rounding::lemma_nearest_scales(s * t, pow2(drop as nat), w);
        }
        if drop >= 118 {
            proof {
                lemma_pow2_unfold(118);
                if drop > 118 {
                    lemma_pow2_strictly_increases(118, drop as nat);
                }
                let n = s * t;
                lemma_small_mod(n, pow2(drop as nat));
                lemma_basic_div(n as int, pow2(drop as nat) as int);
            }
            return digits_of(0);
        }
        let unit: u128 = rounding::power_of_two(drop);
        let floor: u128 = scaled / unit;
        let rest: u128 = scaled % unit;
        proof {
            rounding::lemma_power_fits(drop as nat);
            assert(floor <= scaled) by (nonlinear_arith)
                requires
                    floor == scaled / unit,
                    unit > 0,
            ;
        }
        if 2 * rest < unit || (2 * rest == unit && floor % 2 == 0) {
            digits_of(floor)
        } else {
            digits_of(floor + 1)
        }
    }
}

/// Append the digits from `to` down to `from`.
fn show(out: &mut String, digits: &Vec<u8>, from: usize, to: usize)
    requires
        from <= to <= digits@.len(),
        are_digits(digits@),
    ensures
        final(out)@ == old(out)@ + shown(digits@.subrange(from as int, to as int)),
{
    let mut i: usize = to;
    assert(out@ =~= old(out)@ + shown(digits@.subrange(to as int, to as int)));
    while i > from
        invariant
            from <= i <= to <= digits@.len(),
            are_digits(digits@),
            out@ == old(out)@ + shown(digits@.subrange(i as int, to as int)),
        decreases i,
    {
        i = i - 1;
        assert(digits@[i as int] < 10);
        out.append(text::digit_text(digits[i] as u64));
        assert(out@ =~= old(out)@ + shown(digits@.subrange(i as int, to as int)));
    }
}

/// Writes a value with a fixed number of decimals.
pub fn fixed(x: Double, decimals: u32) -> (r: String)
    requires
        decimals <= MAX_DECIMALS,
    ensures
        r@ == fixed_text(x, decimals as nat),
{
    if x.is_nan() {
        return "NaN".to_owned();
    }
    let mut out: String = if x.bits >= SIGN_BIT {
        "-".to_owned()
    } else {
        "".to_owned()
    };
    if x.bits % SIGN_BIT == INFINITE {
        out.append("inf");
        return out;
    }
    let places: usize = decimals as usize;
    let mut digits: Vec<u8> = count_digits(x, decimals);
    let ghost count = counted(x, decimals as nat);
    while digits.len() <= places
        invariant
            value(digits@) == count,
            are_digits(digits@),
            digits@.len() == places + 1 || leads(digits@) || digits@.len() <= places,
        decreases places + 1 - digits@.len(),
    {
        proof {
            lemma_value_push(digits@, 0);
            assert(ten_to(digits@.len()) * 0 == 0) by (nonlinear_arith);
        }
        digits.push(0);
    }
    let n: usize = digits.len();
    proof {
        lemma_digits_part(digits@, places as nat);
        lemma_shown_is_numeral(digits@.skip(places as int));
        assert(digits@.subrange(places as int, n as int) =~= digits@.skip(places as int));
        assert(digits@.subrange(0, places as int) =~= digits@.take(places as int));
    }
    show(&mut out, &digits, places, n);
    if decimals > 0 {
        out.append(".");
        show(&mut out, &digits, 0, places);
    }
    out
}

} // verus!
