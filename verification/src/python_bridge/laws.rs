//! What the fallbacks find, in terms of real numbers.
use vstd::prelude::*;
use vstd::arithmetic::power2::*;
use crate::double;
use crate::double::worth::{
    beyond, lemma_absolute, lemma_beyond, lemma_extremes, lemma_integer_worth, lemma_itself,
    lemma_minus, lemma_near_keeps_side, lemma_order, lemma_over, lemma_product_error,
    lemma_product_is_finite, lemma_ratio_worth, lemma_sized_integer, lemma_sized_product,
    lemma_sized_quotient, lemma_sized_widens, lemma_times, lemma_worth, near, ordinary, size, sized,
    unit_count,
};
use crate::double::Double;
use crate::python_bridge::fallback::{momentum_of, objection, scale_lots, strength_of};
use crate::python_bridge::MomentumSignal;
use crate::risk_enforcer;

verus! {

/// A signal points the way that the price has gone from the first to the last price of the
/// window, and its velocity has that side too: ten thousandths of price for each tenth of the
/// number of prices. Too few prices give no signal.
pub proof fn law_momentum_follows_the_price(prices: Seq<Double>, window: usize)
    requires
        0 < window <= 9007199254740992,
    ensures
        prices.len() < window ==> !momentum_of(prices, window).detected && momentum_of(
            prices,
            window,
        ).direction == 0,
        prices.len() >= window && prices[prices.len() - window].finite() && prices.last().finite()
            ==> {
            let signal = momentum_of(prices, window);
            let change = prices.last().worth() - prices[prices.len() - window].worth();
            &&& signal.direction == 1 <==> change > 0 as real
            &&& signal.direction == -1 <==> change < 0 as real
            &&& signal.direction == 0 <==> change == 0 as real
            &&& sized(change, 200) ==> near(
                signal.velocity.worth(),
                change * 10000 as real / (window as real / 10 as real),
                4,
            )
        },
{
    if prices.len() >= window && prices[prices.len() - window].finite() && prices.last().finite() {
        let (first, last) = (prices[prices.len() - window], prices.last());
        let recent = prices.skip(prices.len() - window);
        assert(recent.first() == first && recent.last() == last);
        let zero = Double::of_integer(0);
        let x = last.worth() - first.worth();
        let change = last.difference(first);
        double::lemma_difference_has_the_sign_of_the_order(last, first);
        lemma_order(first, last);
        lemma_order(last, first);
        double::lemma_integer_is_finite(0);
        if sized(x, 200) {
            let pips = Double::of_integer(10000);
            let span = Double::of_integer(window as u64).quotient(Double::of_integer(10));
            let (n, t) = (10000 as real, window as real / 10 as real);
            lemma_integer_worth(10000);
            lemma_integer_worth(10);
            lemma_integer_worth(window as u64);
            lemma_itself(n, 0);
            lemma_sized_integer(10000);
            lemma_ratio_worth(window as u64, 10);
            lemma_sized_widens(x, 200, 1000);
            lemma_minus(last, first);
            lemma_sized_product(x, n, 200, 53);
            lemma_sized_widens(x * n, 253, 900);
            lemma_times(change, pips, x, n, 1, 0);
            lemma_sized_quotient(x * n, t, 253, 106);
            lemma_sized_widens(x * n / t, 359, 900);
            lemma_over(change.product(pips), span, x * n, t, 2, 1);
        }
    }
}

/// The acceleration is how the second half of the move differs from the first, in ten
/// thousandths of price, up to the rounding of the prices.
pub proof fn law_acceleration_compares_the_halves(prices: Seq<Double>, window: usize)
    requires
        0 < window <= prices.len(),
        ordinary(prices[prices.len() - window]),
        ordinary(prices[prices.len() - window + window / 2]),
        ordinary(prices.last()),
    ensures
        ({
            let first = prices[prices.len() - window].worth();
            let middle = prices[prices.len() - window + window / 2].worth();
            let last = prices.last().worth();
            let exact = ((last - middle) - (middle - first)) * 10000 as real;
            size(momentum_of(prices, window).acceleration.worth() - exact) * 281474976710656 as real
                <= (first + middle + last) * 10000 as real + 1 as real
        }),
{
    let (a, b, c) = (
        prices[prices.len() - window],
        prices[prices.len() - window + window / 2],
        prices.last(),
    );
    let recent = prices.skip(prices.len() - window);
    assert(recent.first() == a && recent.last() == c && recent[window as int / 2] == b);
    let (x, y, z) = (a.worth(), b.worth(), c.worth());
    let ten = Double::of_integer(10000);
    lemma_integer_worth(10000);
    lemma_pow2_unfold(101);
    lemma_pow2_unfold(102);
    lemma_pow2_unfold(103);
    lemma_pow2_unfold(104);
    lemma_pow2_pos(100);
    lemma_pow2_adds(104, 14);
    lemma2_to64();
    lemma_pow2_strictly_increases(118, 1000);
    lemma_pow2_strictly_increases(104, 1000);
    lemma_minus(c, b);
    lemma_minus(b, a);
    let (d, e) = (c.difference(b), b.difference(a));
    let (p, q) = (d.worth(), e.worth());
    let (sd, se) = (size(z - y), size(y - x));
    assert(1int as real * sd == sd && 1int as real * se == se) by (nonlinear_arith);
    let k = 4503599627370496 as real;
    assert(size(p - (z - y)) * k <= sd && size(q - (y - x)) * k <= se);
    lemma_minus(d, e);
    let r = d.difference(e);
    let g = r.worth();
    let sg = size(p - q);
    assert(1int as real * sg == sg) by (nonlinear_arith);
    assert(size(g - (p - q)) * k <= sg);
    assert(sg <= 4 as real * (x + y + z));
    assert(size(g) <= 8 as real * (x + y + z));
    lemma_product_is_finite(r, ten);
    lemma_product_error(r, ten);
    let v = r.product(ten).worth();
    let w = unit_count();
    lemma_pow2_strictly_increases(64, 1074);
    let err = size(v - g * 10000 as real);
    assert(err * k <= 80000 as real * (x + y + z) + 1 as real) by {
        if !(err * 9007199254740992 as real <= size(g * 10000 as real)) {
            assert(err * k <= err * w) by (nonlinear_arith)
                requires
                    w >= k,
                    err >= 0 as real,
            ;
        }
    }
    let f = (z - y) - (y - x);
    assert(size(g - f) * k <= 8 as real * (x + y + z));
    assert(size(v - f * 10000 as real) <= err + 10000 as real * size(g - f));
}

/// A signal is found only with a speed of half a pip a second or more, and not where the move
/// slows down; it is found wherever the speed is beyond that and the move gains on the same
/// side.
pub proof fn law_momentum_needs_speed(prices: Seq<Double>, window: usize)
    requires
        0 < window <= prices.len(),
        momentum_of(prices, window).velocity.finite(),
        momentum_of(prices, window).acceleration.finite(),
    ensures
        ({
            let signal = momentum_of(prices, window);
            let v = signal.velocity.worth();
            let a = signal.acceleration.worth();
            let half = 1 as real / 2 as real;
            &&& signal.detected ==> !beyond(half, size(v)) && !(v > 0 as real && a < 0 as real) && !(
            v < 0 as real && a > 0 as real)
            &&& signal.detected ==> size(v) > Double::ratio(1, 2).worth()
            &&& beyond(size(v), half) && ((v > 0 as real && a > 0 as real) || (v < 0 as real && a
                < 0 as real)) ==> signal.detected
        }),
{
    let signal = momentum_of(prices, window);
    let (v, a) = (signal.velocity, signal.acceleration);
    let half = 1 as real / 2 as real;
    lemma_ratio_worth(1, 2);
    lemma_itself(v.worth(), 0);
    lemma_absolute(v, v.worth(), 0);
    lemma_itself(size(v.worth()), 0);
    lemma_beyond(v.absolute().worth(), Double::ratio(1, 2).worth(), size(v.worth()), half, 0, 1);
    lemma_order(Double::ratio(1, 2), v.absolute());
    lemma_worth(v);
    lemma_worth(a);
    double::lemma_integer_is_finite(1);
    let (s, t) = (a.sign_of(), v.sign_of());
    assert(s.magnitude() == t.magnitude() && s.magnitude() > 0);
    assert(s.negative() == a.negative() && t.negative() == v.negative());
}

/// The strength is a tenth of the speed, one at most.
pub proof fn law_strength_is_a_tenth_of_the_speed(velocity: Double)
    requires
        velocity.finite(),
        sized(velocity.worth(), 200),
    ensures
        strength_of(velocity).finite(),
        near(
            strength_of(velocity).worth(),
            if size(velocity.worth()) > 10 as real {
                1 as real
            } else {
                size(velocity.worth()) / 10 as real
            },
            1,
        ),
{
    let ten = Double::of_integer(10);
    let v = velocity.worth();
    lemma_integer_worth(10);
    lemma_itself(v, 0);
    lemma_absolute(velocity, v, 0);
    lemma_extremes(velocity.absolute(), ten);
    let x = if size(v) > 10 as real {
        10 as real
    } else {
        size(v)
    };
    lemma_itself(x, 0);
    lemma_itself(10 as real, 0);
    lemma_sized_integer(10);
    lemma_sized_widens(10 as real, 53, 200);
    assert(sized(size(v), 200));
    assert(sized(x, 200));
    lemma_sized_quotient(x, 10 as real, 200, 53);
    lemma_sized_widens(x / 10 as real, 253, 900);
    lemma_over(velocity.absolute().smaller(ten), ten, x, 10 as real, 0, 0);
}

/// The strength of a signal is that of its velocity.
pub proof fn law_signal_is_as_strong_as_it_is_fast(prices: Seq<Double>, window: usize)
    requires
        0 < window <= prices.len(),
        momentum_of(prices, window).velocity.finite(),
        sized(momentum_of(prices, window).velocity.worth(), 200),
    ensures
        ({
            let speed = size(momentum_of(prices, window).velocity.worth());
            let strength = momentum_of(prices, window).strength.worth();
            &&& speed >= 10 as real ==> near(strength, 1 as real, 1)
            &&& speed <= 10 as real ==> near(strength, speed / 10 as real, 1)
        }),
{
    law_strength_is_a_tenth_of_the_speed(momentum_of(prices, window).velocity);
}

/// A trade qualifies exactly with a spread of no more than one and a half times its average,
/// a latency of fifty milliseconds at most and a signal that was found and has three tenths of
/// the strength, up to rounding. The first thing that is amiss is the objection.
pub proof fn law_trades_qualify_for_cause(
    momentum: MomentumSignal,
    spread: Double,
    avg_spread: Double,
    latency_ms: u64,
)
    requires
        spread.finite(),
        ordinary(avg_spread),
        momentum.strength.finite(),
    ensures
        ({
            let s = spread.worth();
            let usual = avg_spread.worth() * (15 as real / 10 as real);
            let strength = momentum.strength.worth();
            let least = 3 as real / 10 as real;
            let verdict = objection(momentum, spread, avg_spread, latency_ms);
            &&& beyond(s, usual) ==> verdict == Some("spread_too_wide"@)
            &&& verdict == Some("spread_too_wide"@) <==> s > avg_spread.product(
                Double::ratio(15, 10),
            ).worth()
            &&& !(s > avg_spread.product(Double::ratio(15, 10)).worth()) && latency_ms <= 50
                && momentum.detected ==> (verdict is None <==> strength >= Double::ratio(
                3,
                10,
            ).worth())
            &&& beyond(usual, s) && latency_ms > 50 ==> verdict == Some("latency_too_high"@)
            &&& beyond(usual, s) && latency_ms <= 50 && (!momentum.detected || beyond(
                least,
                strength,
            )) ==> verdict == Some("momentum_too_weak"@)
            &&& beyond(usual, s) && latency_ms <= 50 && momentum.detected && beyond(
                strength,
                least,
            ) ==> verdict is None
        }),
{
    let (a, s, f) = (avg_spread.worth(), spread.worth(), 15 as real / 10 as real);
    let strength = momentum.strength.worth();
    let least = 3 as real / 10 as real;
    lemma_ratio_worth(15, 10);
    lemma_ratio_worth(3, 10);
    lemma_itself(a, 0);
    lemma_itself(s, 0);
    lemma_itself(strength, 0);
    lemma_sized_product(a, f, 100, 106);
    lemma_sized_widens(a * f, 206, 900);
    lemma_times(avg_spread, Double::ratio(15, 10), a, f, 0, 1);
    let usual = avg_spread.product(Double::ratio(15, 10));
    lemma_beyond(usual.worth(), s, a * f, s, 2, 0);
    lemma_order(usual, spread);
    lemma_beyond(strength, Double::ratio(3, 10).worth(), strength, least, 0, 1);
    lemma_order(momentum.strength, Double::ratio(3, 10));
    reveal_strlit("spread_too_wide");
    reveal_strlit("latency_too_high");
    reveal_strlit("momentum_too_weak");
    assert("spread_too_wide"@[0] != "latency_too_high"@[0]);
    assert("spread_too_wide"@[0] != "momentum_too_weak"@[0]);
}

/// There is no scale-in after the third, nor with less than one locked in.
pub proof fn law_fallback_scale_ins_end(
    locked_profit: Double,
    current_lots: Double,
    scale_number: u8,
    max_lots: Double,
)
    requires
        locked_profit.finite(),
        scale_number >= 3 || locked_profit.worth() < 1 as real,
    ensures
        scale_lots(locked_profit, current_lots, scale_number, max_lots).worth() == 0 as real,
{
    lemma_integer_worth(0);
    lemma_integer_worth(1);
    lemma_order(locked_profit, Double::of_integer(1));
}

/// A scale-in uses half the locked profit: a thousandth of a lot for each unit of it, three
/// tenths of that for the first, four for the second and five for the third. A tenth of a lot
/// and the room that is left are the most it gets.
pub proof fn law_fallback_scale_in_is_a_share(
    locked_profit: Double,
    current_lots: Double,
    scale_number: u8,
    max_lots: Double,
)
    requires
        ordinary(locked_profit),
        locked_profit.worth() >= 1 as real,
        scale_number < 3,
        current_lots.finite(),
        max_lots.finite(),
        size(max_lots.worth() - current_lots.worth()) <= pow2(1000) as real,
    ensures
        ({
            let exact = locked_profit.worth() * (5 as real / 10 as real) * (1 as real / 1000 as real)
                * ((3 + scale_number) as real / 10 as real);
            let room = max_lots.worth() - current_lots.worth();
            let tenth = 1 as real / 10 as real;
            let r = scale_lots(locked_profit, current_lots, scale_number, max_lots);
            &&& r.finite()
            &&& beyond(room, exact) && beyond(tenth, exact) ==> near(r.worth(), exact, 6)
            &&& beyond(exact, tenth) && beyond(room, tenth) ==> near(r.worth(), tenth, 1)
            &&& room > 0 as real && beyond(exact, room) && beyond(tenth, room) ==> near(
                r.worth(),
                room,
                1,
            )
            &&& room <= 0 as real ==> r.worth() == 0 as real
        }),
{
    let (p, h) = (locked_profit.worth(), 5 as real / 10 as real);
    let zero = Double::of_integer(0);
    let one = Double::of_integer(1);
    let room = max_lots.worth() - current_lots.worth();
    let tenth = 1 as real / 10 as real;
    lemma_integer_worth(0);
    lemma_integer_worth(1);
    lemma_order(locked_profit, one);
    lemma_ratio_worth(5, 10);
    lemma_ratio_worth(1, 10);
    lemma_itself(p, 0);
    lemma_sized_product(p, h, 100, 106);
    lemma_sized_widens(p * h, 206, 900);
    lemma_times(locked_profit, Double::ratio(5, 10), p, h, 0, 1);
    let half = locked_profit.product(Double::ratio(5, 10));
    let usable = p * h;
    let rate = Double::ratio(1, 1000);
    let r = 1 as real / 1000 as real;
    lemma_ratio_worth(1, 1000);
    lemma_ratio_worth(3, 10);
    lemma_ratio_worth(4, 10);
    lemma_sized_product(usable, r, 206, 106);
    lemma_sized_widens(usable * r, 312, 900);
    lemma_times(half, rate, usable, r, 2, 1);
    let f = (3 + scale_number) as real / 10 as real;
    let factor = risk_enforcer::scale_factor(scale_number);
    assert(near(factor.worth(), f, 1) && factor.finite() && sized(f, 106));
    lemma_sized_product(usable * r, f, 312, 106);
    let exact = usable * r * f;
    lemma_sized_widens(exact, 418, 900);
    lemma_times(half.product(rate), factor, usable * r, f, 4, 1);
    let lots = risk_enforcer::linear_lots(half, scale_number);
    lemma_minus(max_lots, current_lots);
    let space = max_lots.difference(current_lots);
    lemma_extremes(lots, Double::ratio(1, 10));
    let capped = lots.smaller(Double::ratio(1, 10));
    lemma_extremes(capped, space);
    lemma_extremes(capped.smaller(space), zero);
    lemma_beyond(lots.worth(), Double::ratio(1, 10).worth(), exact, tenth, 6, 1);
    lemma_beyond(lots.worth(), space.worth(), exact, room, 6, 1);
    lemma_beyond(Double::ratio(1, 10).worth(), space.worth(), tenth, room, 1, 1);
    lemma_near_keeps_side(space.worth(), room, 1);
    assert(exact > 0 as real) by {
        assert(p * h > 0 as real);
        let u = usable * r;
        assert(u > 0 as real);
        assert(u * f > 0 as real) by (nonlinear_arith)
            requires
                u > 0 as real,
                f > 0 as real,
        ;
    }
    lemma_near_keeps_side(lots.worth(), exact, 6);
    lemma_near_keeps_side(Double::ratio(1, 10).worth(), tenth, 1);
}

} // verus!
