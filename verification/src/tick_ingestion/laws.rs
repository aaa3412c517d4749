//! What holds of ticks and their averages in terms of real numbers.
use vstd::prelude::*;
use vstd::arithmetic::power2::*;
use crate::double;
use crate::double::worth::{
    beyond, lemma_beyond, lemma_integer_worth, lemma_itself, lemma_minus, lemma_order, lemma_over,
    lemma_plus, lemma_ratio_worth, lemma_sized_integer, lemma_sized_product, lemma_sized_quotient,
    lemma_sized_widens, lemma_times, lemma_worth, near, size, sized,
};
use crate::double::Double;
use crate::tick_ingestion::{averaged, oldest, pips_per_unit, velocity_between, Tick, TickBuffer};

verus! {

/// How many pips one unit of price is: with four or five decimals a pip is the fourth of
/// them, with three it is the second, and else a whole unit.
pub open spec fn pip_count(digits: u32) -> int {
    if digits == 4 || digits == 5 {
        10000
    } else if digits == 3 {
        100
    } else {
        1
    }
}

/// Prices are turned into pips by the number of pips in one unit of price.
pub proof fn law_pips_are_counted(digits: u32)
    ensures
        pips_per_unit(digits).finite(),
        pips_per_unit(digits).worth() == pip_count(digits) as real,
{
    lemma_integer_worth(10000);
    lemma_integer_worth(100);
    lemma_integer_worth(1);
}

/// The spread is the distance from bid to ask, in pips.
pub proof fn law_spread_is_the_distance(tick: Tick)
    requires
        tick.bid.finite(),
        tick.ask.finite(),
        sized(tick.ask.worth() - tick.bid.worth(), 200),
    ensures
        tick.spread().finite(),
        near(
            tick.spread().worth(),
            (tick.ask.worth() - tick.bid.worth()) * pip_count(tick.digits) as real,
            2,
        ),
{
    let x = tick.ask.worth() - tick.bid.worth();
    let n = pip_count(tick.digits);
    law_pips_are_counted(tick.digits);
    lemma_itself(n as real, 0);
    lemma_sized_integer(n as u64);
    lemma_sized_widens(x, 200, 1000);
    lemma_minus(tick.ask, tick.bid);
    lemma_sized_product(x, n as real, 200, 53);
    lemma_sized_widens(x * n as real, 253, 900);
    lemma_times(tick.ask.difference(tick.bid), pips_per_unit(tick.digits), x, n as real, 1, 0);
}

/// Numbers that the laws of averages are stated for: zero, or of an ordinary size.
pub open spec fn moderate(x: Double) -> bool {
    x.finite() && (x.magnitude() == 0 || sized(x.worth(), 200))
}

/// One share of a number.
proof fn lemma_share(weight: Double, x: Double, w: real, n: int)
    requires
        weight.finite(),
        near(weight.worth(), w, n),
        0 <= n <= 2,
        sized(w, 106),
        moderate(x),
    ensures
        weight.product(x).finite(),
        near(weight.product(x).worth(), w * x.worth(), n + 1),
{
    let v = x.worth();
    lemma_worth(x);
    if x.magnitude() == 0 {
        double::lemma_product_commutes(weight, x);
        double::lemma_zero_times(x, weight);
        lemma_worth(weight.product(x));
        assert(w * v == 0 as real) by (nonlinear_arith)
            requires
                v == 0 as real,
        ;
        lemma_itself(0 as real, n + 1);
    } else {
        lemma_itself(v, 0);
        lemma_sized_product(w, v, 106, 200);
        lemma_sized_widens(w * v, 306, 900);
        lemma_times(weight, x, w, v, n, 0);
    }
}

/// The two weights of the average.
proof fn lemma_weights()
    ensures
        Double::ratio(1, 100).finite(),
        near(Double::ratio(1, 100).worth(), 1 as real / 100 as real, 1),
        sized(1 as real / 100 as real, 106),
        Double::of_integer(1).difference(Double::ratio(1, 100)).finite(),
        near(
            Double::of_integer(1).difference(Double::ratio(1, 100)).worth(),
            99 as real / 100 as real,
            2,
        ),
        sized(99 as real / 100 as real, 106),
{
    let one = Double::of_integer(1);
    let alpha = Double::ratio(1, 100);
    let c = 1 as real / 100 as real;
    let d = 99 as real / 100 as real;
    lemma_integer_worth(1);
    lemma_ratio_worth(1, 100);
    lemma2_to64();
    lemma_pow2_strictly_increases(1, 1000);
    assert(1int as real * size(c) == size(c));
    lemma_minus(one, alpha);
    let t = 1 as real - alpha.worth();
    assert(1int as real * size(t) == size(t));
    assert(2int as real * size(d) == 2 as real * d);
    lemma_pow2_strictly_increases(1, 106);
    lemma_pow2_strictly_increases(2, 106);
    assert(size(d) * pow2(106) as real >= d * 4 as real) by (nonlinear_arith)
        requires
            size(d) == d,
            d >= 0 as real,
            pow2(106) as real >= 4 as real,
    ;
}

/// How far the sum of two near shares is from the exact mean.
proof fn lemma_mean_error(p: real, q: real, r: real, s: real, a: real)
    requires
        size(100 as real * p - s) * 4503599627370496 as real <= 2 as real * size(s),
        size(100 as real * q - 99 as real * a) * 4503599627370496 as real <= 3 as real * (99 as real
            * size(a)),
        size(r - (p + q)) * 4503599627370496 as real <= size(p + q),
    ensures
        size(100 as real * r - (s + 99 as real * a)) * 562949953421312 as real <= 100 as real * (
        size(s) + size(a)),
{
    let big = 4503599627370496 as real;
    let (ex, ey) = (size(100 as real * p - s), size(100 as real * q - 99 as real * a));
    let er = size(r - (p + q));
    assert(size(100 as real * p) <= size(s) + ex);
    assert(size(100 as real * q) <= 99 as real * size(a) + ey);
    assert(100 as real * size(p + q) <= size(100 as real * p) + size(100 as real * q));
    assert(size(100 as real * r - (s + 99 as real * a)) <= 100 as real * er + ex + ey);
}

/// What the distance from the exact mean says of the mean.
proof fn lemma_mean_follows(r: real, s: real, a: real)
    requires
        size(100 as real * r - (s + 99 as real * a)) * 562949953421312 as real <= 100 as real * (
        size(s) + size(a)),
    ensures
        ({
            let k = 562949953421312 as real;
            let slack = size(s) + size(a);
            &&& (a <= s ==> (a - r) * k <= slack && (r - s) * k <= slack)
            &&& (s <= a ==> (s - r) * k <= slack && (r - a) * k <= slack)
            &&& size(100 as real * (r - a) - (s - a)) * k <= 100 as real * slack
        }),
{
    let off = 100 as real * r - (s + 99 as real * a);
    assert(100 as real * (r - a) - (s - a) == off);
    assert(off <= size(off) && -off <= size(off));
}

/// The moving average is a weighted mean: one hundredth of the new sample and ninety-nine
/// hundredths of the old average, up to rounding. So it lies between the two, it moves by a
/// hundredth of their difference, and a steady sample keeps it where it is.
pub proof fn law_average_is_weighted(average: Double, sample: Double)
    requires
        moderate(average),
        moderate(sample),
    ensures
        averaged(average, sample).finite(),
        ({
            let a = average.worth();
            let s = sample.worth();
            let r = averaged(average, sample).worth();
            let k = 562949953421312 as real;
            let slack = size(s) + size(a);
            &&& size(100 as real * r - (s + 99 as real * a)) * k <= 100 as real * slack
            &&& (a <= s ==> (a - r) * k <= slack && (r - s) * k <= slack)
            &&& (s <= a ==> (s - r) * k <= slack && (r - a) * k <= slack)
            &&& size(100 as real * (r - a) - (s - a)) * k <= 100 as real * slack
        }),
{
    let alpha = Double::ratio(1, 100);
    let beta = Double::of_integer(1).difference(alpha);
    let (a, s) = (average.worth(), sample.worth());
    let c = 1 as real / 100 as real;
    let d = 99 as real / 100 as real;
    lemma_weights();
    lemma_share(alpha, sample, c, 1);
    lemma_share(beta, average, d, 2);
    let (p, q) = (alpha.product(sample).worth(), beta.product(average).worth());
    assert(near(p, c * s, 2) && near(q, d * a, 3));
    lemma_hundredth(p, s);
    lemma_ninety_nine_hundredths(q, a);
    assert(size(s) <= pow2(200) as real && size(a) <= pow2(200) as real) by {
        lemma_worth(average);
        lemma_worth(sample);
        lemma_pow2_pos(200);
    }
    assert(size(p + q) <= pow2(1000) as real) by {
        lemma_pow2_unfold(201);
        lemma_pow2_unfold(202);
        lemma_pow2_strictly_increases(202, 1000);
        lemma_sum_of_shares(p, q, s, a, pow2(200) as real);
    }
    lemma_plus(alpha.product(sample), beta.product(average));
    let r = averaged(average, sample).worth();
    assert(1int as real * size(p + q) == size(p + q)) by (nonlinear_arith);
    lemma_mean_error(p, q, r, s, a);
    lemma_mean_follows(r, s, a);
}

proof fn lemma_hundredth(p: real, s: real)
    requires
        near(p, (1 as real / 100 as real) * s, 2),
    ensures
        size(100 as real * p - s) * 4503599627370496 as real <= 2 as real * size(s),
{
    let x = (1 as real / 100 as real) * s;
    assert(100 as real * x == s);
    assert(2int as real * size(x) == 2 as real * size(x)) by (nonlinear_arith);
    assert(size(100 as real * p - s) == 100 as real * size(p - x));
    assert(100 as real * size(x) == size(s));
}

proof fn lemma_ninety_nine_hundredths(q: real, a: real)
    requires
        near(q, (99 as real / 100 as real) * a, 3),
    ensures
        size(100 as real * q - 99 as real * a) * 4503599627370496 as real <= 3 as real * (99 as real
            * size(a)),
{
    let y = (99 as real / 100 as real) * a;
    assert(100 as real * y == 99 as real * a);
    assert(3int as real * size(y) == 3 as real * size(y)) by (nonlinear_arith);
    assert(size(100 as real * q - 99 as real * a) == 100 as real * size(q - y));
    assert(100 as real * size(y) == 99 as real * size(a));
    let e = size(q - y);
    assert(e * 4503599627370496 as real <= 3 as real * size(y));
    assert((100 as real * e) * 4503599627370496 as real <= 3 as real * (100 as real * size(y)));
}

proof fn lemma_sum_of_shares(p: real, q: real, s: real, a: real, m: real)
    requires
        size(100 as real * p - s) * 4503599627370496 as real <= 2 as real * size(s),
        size(100 as real * q - 99 as real * a) * 4503599627370496 as real <= 3 as real * (99 as real
            * size(a)),
        size(s) <= m,
        size(a) <= m,
    ensures
        size(p + q) <= 4 as real * m,
{
    let (ex, ey) = (size(100 as real * p - s), size(100 as real * q - 99 as real * a));
    assert(100 as real * size(p) <= size(s) + ex);
    assert(100 as real * size(q) <= 99 as real * size(a) + ey);
}

/// A tick moves the average of its buffer as the moving average does, and the first one sets
/// it.
pub proof fn law_buffer_averages_its_spreads(before: TickBuffer, tick: Tick, after: TickBuffer)
    requires
        before.takes(tick, after),
    ensures
        before.samples() == 0 ==> after.average() == tick.spread(),
        before.samples() > 0 && moderate(before.average()) && moderate(tick.spread()) ==> {
            let a = before.average().worth();
            let s = tick.spread().worth();
            let r = after.average().worth();
            size(100 as real * (r - a) - (s - a)) * 562949953421312 as real <= 100 as real * (
            size(s) + size(a))
        },
{
    if moderate(before.average()) && moderate(tick.spread()) {
        law_average_is_weighted(before.average(), tick.spread());
    }
}

/// The mid price lies half way between bid and ask.
pub proof fn law_mid_is_half_way(tick: Tick)
    requires
        tick.bid.finite(),
        tick.ask.finite(),
        sized(tick.bid.worth() + tick.ask.worth(), 200),
    ensures
        tick.mid().finite(),
        near(tick.mid().worth(), (tick.bid.worth() + tick.ask.worth()) / 2 as real, 2),
{
    let x = tick.bid.worth() + tick.ask.worth();
    lemma_integer_worth(2);
    lemma_itself(2 as real, 0);
    lemma_sized_integer(2);
    lemma_sized_widens(x, 200, 1000);
    lemma_plus(tick.bid, tick.ask);
    lemma_sized_quotient(x, 2 as real, 200, 53);
    lemma_sized_widens(x / 2 as real, 253, 900);
    lemma_over(tick.bid.sum(tick.ask), Double::of_integer(2), x, 2 as real, 1, 0);
}

/// The velocity is the move of the mid price in pips, over the seconds it took. It is measured
/// over two milliseconds or more.
pub proof fn law_velocity_is_the_rate(first: Tick, last: Tick)
    requires
        first.received_at_ms <= last.received_at_ms,
        last.received_at_ms - first.received_at_ms <= 9007199254740992,
    ensures
        velocity_between(first, last) is Some <==> last.received_at_ms - first.received_at_ms >= 2,
        velocity_between(first, last) is Some && first.mid().finite() && last.mid().finite()
            && sized(last.mid().worth() - first.mid().worth(), 200) ==> {
            let exact = (last.mid().worth() - first.mid().worth()) * pip_count(last.digits) as real
                / ((last.received_at_ms - first.received_at_ms) as real / 1000 as real);
            &&& velocity_between(first, last)->0.finite()
            &&& near(velocity_between(first, last)->0.worth(), exact, 4)
        },
{
    let ms = (last.received_at_ms - first.received_at_ms) as u64;
    let thousand = Double::of_integer(1000);
    let edge = Double::ratio(1, 1000);
    let seconds = Double::of_integer(ms).quotient(thousand);
    lemma_integer_worth(1000);
    lemma_integer_worth(ms);
    lemma_itself(1000 as real, 0);
    lemma_itself(ms as real, 0);
    lemma_ratio_worth(1, 1000);
    if ms == 0 {
        lemma_worth(Double::of_integer(0));
        double::lemma_integer_is_finite(1000);
        double::lemma_zero_over(Double::of_integer(0), thousand);
        double::lemma_fraction_is_positive(1, 1000);
    } else {
        let t = ms as real / 1000 as real;
        lemma_ratio_worth(ms, 1000);
        lemma_order(edge, seconds);
        if ms >= 2 {
            let u = 1 as real / 1000 as real;
            assert(beyond(t, u));
            lemma_beyond(seconds.worth(), edge.worth(), t, u, 1, 1);
        }
        if ms >= 2 && first.mid().finite() && last.mid().finite() && sized(
            last.mid().worth() - first.mid().worth(),
            200,
        ) {
            let x = last.mid().worth() - first.mid().worth();
            let n = pip_count(last.digits) as real;
            law_pips_are_counted(last.digits);
            lemma_itself(n, 0);
            lemma_sized_integer(pip_count(last.digits) as u64);
            lemma_sized_widens(x, 200, 1000);
            lemma_minus(last.mid(), first.mid());
            lemma_sized_product(x, n, 200, 53);
            lemma_sized_widens(x * n, 253, 900);
            let step = last.mid().difference(first.mid());
            lemma_times(step, pips_per_unit(last.digits), x, n, 1, 0);
            lemma_sized_quotient(x * n, t, 253, 106);
            lemma_sized_widens(x * n / t, 359, 900);
            lemma_over(step.product(pips_per_unit(last.digits)), seconds, x * n, t, 2, 1);
        }
    }
}

/// A window holds exactly the ticks of its last milliseconds, and the velocity over it is that
/// from its first tick to its last.
pub proof fn law_window_holds_recent_ticks(buffer: TickBuffer, window_ms: u64, now: u64, tick: Tick)
    ensures
        buffer.window(oldest(window_ms, now)).contains(tick) <==> buffer.ticks().contains(tick)
            && now - tick.received_at_ms <= window_ms,
        buffer.velocity(window_ms, now) is Some ==> buffer.window(oldest(window_ms, now)).len()
            >= 2,
{
    let cutoff = oldest(window_ms, now);
    lemma_window(buffer.ticks(), cutoff, tick);
}

proof fn lemma_window(ticks: Seq<Tick>, cutoff: u64, tick: Tick)
    ensures
        ticks.filter(|t: Tick| t.received_at_ms >= cutoff).contains(tick) <==> ticks.contains(tick)
            && tick.received_at_ms >= cutoff,
    decreases ticks.len(),
{
    reveal(Seq::filter);
    let kept = |t: Tick| t.received_at_ms >= cutoff;
    if ticks.len() > 0 {
        let shorter = ticks.drop_last();
        let all = ticks.filter(kept);
        let less = shorter.filter(kept);
        lemma_window(shorter, cutoff, tick);
        if all.contains(tick) {
            let i = choose|i: int| 0 <= i < all.len() && all[i] == tick;
            if i < less.len() {
                assert(less[i] == tick);
                let k = choose|k: int| 0 <= k < shorter.len() && shorter[k] == tick;
                assert(ticks[k] == tick);
            } else {
                assert(ticks[ticks.len() - 1] == tick);
            }
        }
        if ticks.contains(tick) && kept(tick) {
            let k = choose|k: int| 0 <= k < ticks.len() && ticks[k] == tick;
            if k < shorter.len() {
                assert(shorter[k] == tick);
                let i = choose|i: int| 0 <= i < less.len() && less[i] == tick;
                assert(all[i] == tick);
            } else {
                assert(all[all.len() - 1] == tick);
            }
        }
    }
}

/// The acceleration is positive exactly where the recent half of the window is faster than all
/// of it, and negative exactly where it is slower. It is measured with ten ticks or more.
pub proof fn law_acceleration_compares_velocities(buffer: TickBuffer, window_ms: u64, now: u64)
    ensures
        buffer.ticks().len() < 10 ==> buffer.acceleration(window_ms, now) is None,
        buffer.acceleration(window_ms, now) is Some <==> buffer.ticks().len() >= 10
            && buffer.velocity(window_ms / 2, now) is Some && buffer.velocity(window_ms, now) is Some,
        buffer.acceleration(window_ms, now) is Some && buffer.velocity(window_ms / 2, now)->0.finite()
            && buffer.velocity(window_ms, now)->0.finite() ==> {
            let recent = buffer.velocity(window_ms / 2, now)->0.worth();
            let full = buffer.velocity(window_ms, now)->0.worth();
            let r = buffer.acceleration(window_ms, now)->0;
            &&& r.rank() > 0 <==> recent > full
            &&& r.rank() < 0 <==> recent < full
            &&& sized(recent - full, 200) ==> near(r.worth(), recent - full, 1)
        },
{
    if buffer.acceleration(window_ms, now) is Some && buffer.velocity(window_ms / 2, now)->0.finite()
        && buffer.velocity(window_ms, now)->0.finite() {
        let recent = buffer.velocity(window_ms / 2, now)->0;
        let full = buffer.velocity(window_ms, now)->0;
        double::lemma_difference_has_the_sign_of_the_order(recent, full);
        lemma_order(recent, full);
        lemma_order(full, recent);
        if sized(recent.worth() - full.worth(), 200) {
            lemma_sized_widens(recent.worth() - full.worth(), 200, 1000);
            lemma_minus(recent, full);
        }
    }
}

/// The latency is the time from market to system, and none where the market's clock is ahead.
pub proof fn law_latency_is_the_delay(tick: Tick)
    requires
        tick.received_at_ms <= i64::MAX,
    ensures
        tick.latency() >= 0,
        tick.received_at_ms >= tick.timestamp_ms ==> tick.timestamp_ms + tick.latency()
            == tick.received_at_ms,
        tick.received_at_ms < tick.timestamp_ms ==> tick.latency() == 0,
{
}

/// A buffer counts what comes in, and its first spread is its average.
pub proof fn law_ticks_are_counted(before: TickBuffer, tick: Tick, after: TickBuffer)
    requires
        before.takes(tick, after),
        before.received() < u64::MAX,
        before.samples() < usize::MAX,
    ensures
        after.received() == before.received() + 1,
        after.samples() == before.samples() + 1,
        after.capacity() == before.capacity(),
        before.samples() == 0 ==> after.average() == tick.spread(),
        after.ticks().len() > 0 && after.ticks().last() == tick,
{
}

} // verus!
