//! What the risk rules come to in terms of real numbers.
use vstd::prelude::*;
use vstd::arithmetic::div_mod::*;
use vstd::arithmetic::power2::*;
use crate::double;
use crate::double::worth::{
    beyond, exact_difference, exact_product, exact_quotient, lemma_absolute, lemma_beyond,
    lemma_extremes, lemma_integer_worth, lemma_integral_worth, lemma_itself, lemma_minus,
    lemma_near_keeps_side, lemma_negated, lemma_order, lemma_over, lemma_plus, lemma_product_error,
    lemma_product_flag, lemma_product_is_finite, lemma_quotient_error, lemma_quotient_is_finite,
    lemma_ratio_worth, lemma_signs, lemma_size_scales, lemma_sized_integer, lemma_sized_product,
    lemma_sized_quotient, lemma_sized_unit, lemma_sized_widens, lemma_sum_error, lemma_times,
    lemma_worth, near, ordinary, size, sized, unit_count,
};
use crate::double::laws::{
    law_quotient_is_next_to_the_exact, law_rounding_goes_to_the_nearest_whole, lemma_nearest_whole,
};
use crate::double::Double;
use crate::risk_enforcer;
use crate::risk_enforcer::{
    configured, linear_lots, point_per_pip, tradable_lots, Account, RiskEnforcer, RiskLimits, RiskVeto,
    TradingRun,
};
use crate::rounding;
use crate::tick_ingestion::laws::pip_count;
use crate::AppConfig;

verus! {

/// The total of a run is its locked and its floating profit together.
pub proof fn law_total_is_the_sum(run: TradingRun)
    requires
        run.locked_profit.finite(),
        run.unrealized_pnl.finite(),
        size(run.locked_profit.worth() + run.unrealized_pnl.worth()) <= pow2(1000) as real,
    ensures
        run.total().finite(),
        near(
            run.total().worth(),
            run.locked_profit.worth() + run.unrealized_pnl.worth(),
            1,
        ),
{
    lemma_plus(run.locked_profit, run.unrealized_pnl);
}

/// A reversal is the loss of more than the threshold's share of the peak, up to rounding,
/// while the run is in profit: it is found only there, and everywhere there after a peak of
/// three pips or more.
pub proof fn law_reversal_is_measured_against_the_peak(
    limits: RiskLimits,
    run: TradingRun,
    pip_multiplier: Double,
)
    requires
        run.peak_profit.finite(),
        run.total().finite(),
        limits.reversal_threshold.finite(),
        limits.reversal_threshold.worth() >= 0 as real,
    ensures
        ({
            let peak = run.peak_profit.worth();
            let total = run.total().worth();
            let least = limits.reversal_threshold.worth() * peak;
            let slack = peak + total;
            let k = 281474976710656 as real;
            &&& limits.reversed(run, pip_multiplier) ==> {
                &&& peak > 0 as real
                &&& total > 0 as real
                &&& (least - (peak - total)) * k <= slack
            }
            &&& ordinary(run.peak_profit) && ordinary(run.current_lots) && ordinary(pip_multiplier)
                && total > 0 as real && beyond(
                peak / run.current_lots.worth() * pip_multiplier.worth(),
                3 as real,
            ) && ((peak - total) - least) * k > slack ==> limits.reversed(run, pip_multiplier)
            &&& ordinary(run.peak_profit) && ordinary(run.current_lots) && ordinary(pip_multiplier)
                && beyond(
                3 as real,
                peak / run.current_lots.worth() * pip_multiplier.worth(),
            ) ==> !limits.reversed(run, pip_multiplier)
        }),
{
    let zero = Double::of_integer(0);
    let three = Double::of_integer(3);
    let total = run.total();
    let peak = run.peak_profit;
    let (x, c) = (peak.worth(), total.worth());
    let t = limits.reversal_threshold.worth();
    lemma_integer_worth(0);
    lemma_integer_worth(3);
    lemma_order(peak, zero);
    lemma_order(total, zero);
    lemma_worth(peak);
    lemma_worth(total);
    let drop = peak.difference(total);
    let share = drop.quotient(peak);
    if x > 0 as real && c > 0 as real {
        double::lemma_difference_has_the_sign_of_the_order(peak, total);
        lemma_order(peak, total);
        lemma_order(total, peak);
        if c < x {
            // Both lie above zero, so the difference is no larger than the peak
            lemma_difference_stays(peak, total);
            lemma_share_of_peak(peak, total);
            let q = share.worth();
            lemma_order(limits.reversal_threshold, share);
            let k = 1125899906842624 as real;
            assert(t < q ==> t * x <= q * x) by (nonlinear_arith)
                requires
                    x > 0 as real,
            ;
            assert(q <= t ==> q * x <= t * x) by (nonlinear_arith)
                requires
                    x > 0 as real,
            ;
        } else {
            assert(drop.rank() <= 0);
            lemma_not_above(drop, peak);
            assert(!limits.reversal_threshold.below(share)) by {
                lemma_worth(limits.reversal_threshold);
            }
            assert(t * x >= 0 as real) by (nonlinear_arith)
                requires
                    t >= 0 as real,
                    x > 0 as real,
            ;
        }
    }
    if ordinary(peak) && ordinary(run.current_lots) && ordinary(pip_multiplier) {
        let (l, m) = (run.current_lots.worth(), pip_multiplier.worth());
        lemma_itself(x, 0);
        lemma_itself(l, 0);
        lemma_itself(m, 0);
        lemma_itself(3 as real, 0);
        lemma_sized_quotient(x, l, 100, 100);
        lemma_sized_widens(x / l, 200, 900);
        lemma_over(peak, run.current_lots, x, l, 0, 0);
        lemma_sized_product(x / l, m, 200, 100);
        lemma_sized_widens(x / l * m, 300, 900);
        let per_lot = peak.quotient(run.current_lots);
        lemma_times(per_lot, pip_multiplier, x / l, m, 1, 0);
        let pips = per_lot.product(pip_multiplier);
        lemma_beyond(pips.worth(), 3 as real, x / l * m, 3 as real, 2, 0);
        lemma_order(pips, three);
    }
}

/// A number not above zero, over one above zero, is not above zero.
proof fn lemma_not_above(a: Double, b: Double)
    requires
        a.rank() <= 0,
        !a.undefined(),
        b.finite(),
        b.rank() > 0,
    ensures
        a.quotient(b).undefined() || a.quotient(b).rank() <= 0,
{
    reveal(Double::quotient);
    double::lemma_units_positive(a.magnitude());
    if a.magnitude() == 0 {
        double::lemma_zero_over(a, b);
    }
}

/// The difference of two finite numbers above zero is finite.
proof fn lemma_difference_stays(a: Double, b: Double)
    requires
        a.finite(),
        b.finite(),
        a.rank() > 0,
        b.rank() > 0,
        b.below(a),
    ensures
        a.difference(b).finite(),
        a.difference(b).rank() > 0,
        a.difference(b).rank() <= a.rank(),
{
    double::lemma_difference_has_the_sign_of_the_order(a, b);
    double::lemma_sum_moves_outward(a, b);
}

/// What is lost of a peak, as a share of it.
proof fn lemma_share_of_peak(peak: Double, total: Double)
    requires
        peak.finite(),
        total.finite(),
        total.worth() > 0 as real,
        total.worth() < peak.worth(),
        peak.difference(total).finite(),
        peak.difference(total).rank() <= peak.rank(),
        peak.difference(total).rank() > 0,
    ensures
        ({
            let share = peak.difference(total).quotient(peak);
            let x = peak.worth();
            let c = total.worth();
            &&& share.finite()
            &&& size(share.worth() * x - (x - c)) * 562949953421312 as real <= x + c
        }),
{
    let drop = peak.difference(total);
    let share = drop.quotient(peak);
    let (x, c, d) = (peak.worth(), total.worth(), drop.worth());
    lemma_negated(total);
    lemma_sum_error(peak, total.negated());
    lemma_worth(drop);
    lemma_worth(peak);
    lemma_order(drop, peak);
    let z = d / x;
    assert(z * x == d) by (nonlinear_arith)
        requires
            z == d / x,
            x > 0 as real,
    ;
    assert(0 as real <= z <= 1 as real) by (nonlinear_arith)
        requires
            z * x == d,
            0 as real <= d <= x,
            x > 0 as real,
    ;
    lemma_pow2_pos(1000);
    lemma_quotient_is_finite(drop, peak);
    lemma_quotient_error(drop, peak);
    let q = share.worth();
    let e = size(q - z);
    let w = unit_count();
    lemma_pow2_strictly_increases(64, 1074);
    lemma2_to64();
    assert(e * 9007199254740992 as real <= 1 as real) by {
        if !(e * 9007199254740992 as real <= size(z)) {
            assert(e * 9007199254740992 as real <= e * w) by (nonlinear_arith)
                requires
                    w >= 9007199254740992 as real,
                    e >= 0 as real,
            ;
        }
    }
    lemma_size_scales(q - z, x);
    assert((q - z) * x == q * x - d) by (nonlinear_arith)
        requires
            z * x == d,
    ;
    assert((e * x) * 9007199254740992 as real <= x) by (nonlinear_arith)
        requires
            e * 9007199254740992 as real <= 1 as real,
            x > 0 as real,
    ;
}

/// A run counts as moved exactly where its floating profit has changed by more than a hundred
/// thousandth, up to rounding.
pub proof fn law_moves_are_noticed(run: TradingRun, new_pnl: Double, now_ms: u64)
    requires
        run.unrealized_pnl.finite(),
        new_pnl.finite(),
        size(new_pnl.worth() - run.unrealized_pnl.worth()) <= pow2(1000) as real,
    ensures
        ({
            let change = size(new_pnl.worth() - run.unrealized_pnl.worth());
            let least = 1 as real / 100000 as real;
            let after = run.repriced(new_pnl, now_ms);
            &&& after.unrealized_pnl == new_pnl
            &&& beyond(change, least) ==> after.last_price_change_ms == now_ms
            &&& beyond(least, change) ==> after.last_price_change_ms == run.last_price_change_ms
            &&& after.locked_profit == run.locked_profit
            &&& after.current_lots == run.current_lots
            &&& after.entry_price == run.entry_price
            &&& after.scale_count == run.scale_count
            &&& after.entry_time_ms == run.entry_time_ms
        }),
{
    let x = new_pnl.worth() - run.unrealized_pnl.worth();
    let step = new_pnl.difference(run.unrealized_pnl);
    let edge = Double::ratio(1, 100000);
    lemma_minus(new_pnl, run.unrealized_pnl);
    lemma_absolute(step, x, 1);
    lemma_ratio_worth(1, 100000);
    lemma_order(edge, step.absolute());
    lemma_beyond(
        step.absolute().worth(),
        edge.worth(),
        size(x),
        1 as real / 100000 as real,
        1,
        1,
    );
}

/// Position sizes are in proportion to the balance: the configured lots for each thousand of
/// it, up to the largest position.
pub proof fn law_initial_lots_are_a_share_of_the_balance(limits: RiskLimits, balance: Double)
    requires
        balance.finite(),
        sized(balance.worth(), 100),
        ordinary(limits.lot_per_1000),
        limits.max_position_lots.finite(),
    ensures
        ({
            let exact = balance.worth() / 1000 as real * limits.lot_per_1000.worth();
            let most = limits.max_position_lots.worth();
            let r = limits.initial_lots(balance);
            &&& r.finite()
            &&& r.worth() <= most
            &&& beyond(most, exact) ==> near(r.worth(), exact, 2)
            &&& beyond(exact, most) ==> r.worth() == most
        }),
{
    let thousand = Double::of_integer(1000);
    let (b, k) = (balance.worth(), limits.lot_per_1000.worth());
    lemma_integer_worth(1000);
    lemma_itself(1000 as real, 0);
    lemma_itself(b, 0);
    lemma_itself(k, 0);
    lemma_sized_integer(1000);
    lemma_sized_quotient(b, 1000 as real, 100, 53);
    lemma_sized_widens(b / 1000 as real, 153, 900);
    lemma_over(balance, thousand, b, 1000 as real, 0, 0);
    lemma_sized_product(b / 1000 as real, k, 153, 100);
    lemma_sized_widens(b / 1000 as real * k, 253, 900);
    let share = balance.quotient(thousand);
    lemma_times(share, limits.lot_per_1000, b / 1000 as real, k, 1, 0);
    let lots = share.product(limits.lot_per_1000);
    lemma_extremes(lots, limits.max_position_lots);
    let most = limits.max_position_lots.worth();
    lemma_itself(most, 0);
    lemma_beyond(lots.worth(), most, b / 1000 as real * k, most, 2, 0);
}

/// The smallest price change that sizes are reckoned with: a millionth at least.
pub open spec fn change_size(point: Double) -> real {
    if point.worth() < 1 as real / 1000000 as real {
        1 as real / 1000000 as real
    } else {
        point.worth()
    }
}

/// What one pip is worth for one lot: the value of a tick, for all the ticks in a pip.
pub open spec fn pip_worth(tick_value: Double, point: Double, digits: u32) -> real {
    tick_value.worth() * (1 as real / pip_count(digits) as real / change_size(point))
}

/// A number held between a hundredth and the largest position; the hundredth wins.
pub open spec fn held_between(x: real, most: real) -> real {
    let capped = if most < x {
        most
    } else {
        x
    };
    if capped < 1 as real / 100 as real {
        1 as real / 100 as real
    } else {
        capped
    }
}

proof fn lemma_pip_worth(tick_value: Double, point: Double, digits: u32)
    requires
        ordinary(tick_value),
        point.finite(),
        point.worth() <= pow2(100) as real,
    ensures
        RiskLimits::pip_value(tick_value, point, digits).finite(),
        near(
            RiskLimits::pip_value(tick_value, point, digits).worth(),
            pip_worth(tick_value, point, digits),
            4,
        ),
        sized(pip_worth(tick_value, point, digits), 312),
        pip_worth(tick_value, point, digits) > 0 as real,
{
    let floor = Double::ratio(1, 1000000);
    let f = 1 as real / 1000000 as real;
    let p = point.worth();
    let ps = 1 as real / pip_count(digits) as real;
    let pe = change_size(point);
    let v = tick_value.worth();
    lemma_ratio_worth(1, 1000000);
    lemma_ratio_worth(1, 10000);
    lemma_ratio_worth(1, 100);
    lemma_integer_worth(1);
    lemma_extremes(point, floor);
    let eff = point.larger(floor);
    if p >= f {
        let t = pow2(106) as real;
        lemma2_to64();
        lemma_pow2_strictly_increases(64, 106);
        lemma_pow2_strictly_increases(100, 106);
        assert(1 as real <= p * t) by (nonlinear_arith)
            requires
                p >= 1 as real / 1000000 as real,
                t >= 1000000 as real,
        ;
    }
    assert(near(eff.worth(), pe, 1)) by {
        let g = floor.worth();
        assert(1int as real * size(pe) == size(pe)) by (nonlinear_arith);
        assert(1int as real * size(f) == size(f)) by (nonlinear_arith);
    }
    assert(sized(pe, 106) && pe > 0 as real);
    let unit = point_per_pip(digits);
    let n = pip_count(digits) as real;
    assert(n == 1 as real ==> ps == 1 as real) by (nonlinear_arith)
        requires
            ps == 1 as real / n,
    ;
    assert(n == 10000 as real || n == 100 as real || n == 1 as real);
    assert(near(unit.worth(), ps, 1)) by {
        lemma_itself(1 as real, 1);
    }
    assert(sized(ps, 106)) by {
        lemma_sized_unit(1 as real);
        lemma_sized_widens(1 as real, 1, 106);
    }
    lemma_sized_quotient(ps, pe, 106, 106);
    lemma_sized_widens(ps / pe, 212, 900);
    lemma_over(unit, eff, ps, pe, 1, 1);
    lemma_itself(v, 0);
    lemma_sized_product(v, ps / pe, 100, 212);
    lemma_sized_widens(v * (ps / pe), 312, 900);
    lemma_times(tick_value, unit.quotient(eff), v, ps / pe, 0, 3);
    let z = ps / pe;
    assert(z > 0 as real) by (nonlinear_arith)
        requires
            z == ps / pe,
            ps > 0 as real,
            pe > 0 as real,
    ;
    assert(v * z > 0 as real) by (nonlinear_arith)
        requires
            v > 0 as real,
            z > 0 as real,
    ;
}

/// Rounding to hundredths and the bounds move a size by half a hundredth at most.
proof fn lemma_tradable(lots: Double, max_position_lots: Double, x: real)
    requires
        lots.finite(),
        max_position_lots.finite(),
        x > 0 as real,
        x <= pow2(700) as real,
        near(lots.worth(), x, 7),
    ensures
        tradable_lots(lots, max_position_lots).finite(),
        (size(
            tradable_lots(lots, max_position_lots).worth() - held_between(
                x,
                max_position_lots.worth(),
            ),
        ) - 1 as real / 200 as real) * 1099511627776 as real <= x + 1 as real,
{
    let hundred = Double::of_integer(100);
    let y = lots.worth();
    let c = 4503599627370496 as real;
    lemma_integer_worth(100);
    lemma_pow2_pos(700);
    lemma_pow2_strictly_increases(700, 720);
    lemma_pow2_adds(700, 20);
    lemma2_to64();
    lemma_pow2_strictly_increases(720, 900);
    lemma_pow2_strictly_increases(900, 1000);
    assert(pow2(720) as real == pow2(700) as real * 1048576 as real);
    assert(7int as real * size(x) == 7 as real * x) by (nonlinear_arith)
        requires
            size(x) == x,
    ;
    assert(size(y * 100 as real) <= 200 as real * x);
    assert(size(lots.worth() * hundred.worth()) <= pow2(1000) as real);
    lemma_product_is_finite(lots, hundred);
    lemma_product_error(lots, hundred);
    let a = lots.product(hundred);
    let w = unit_count();
    lemma_pow2_strictly_increases(64, 1074);
    let e = size(a.worth() - y * 100 as real);
    assert(e * c <= 200 as real * x + 1 as real) by {
        if !(e * 9007199254740992 as real <= size(y * 100 as real)) {
            assert(e * c <= e * w) by (nonlinear_arith)
                requires
                    w >= c,
                    e >= 0 as real,
            ;
        }
    }
    assert(size(a.worth()) <= 300 as real * x + 1 as real);
    assert(size(a.worth()) <= pow2(900) as real);
    lemma_integral_worth(a);
    let n = a.integral();
    let z = n.worth() / 100 as real;
    assert(size(n.worth()) <= 400 as real * x + 3 as real);
    assert(size(z) <= pow2(1000) as real);
    lemma_worth(hundred);
    lemma_quotient_is_finite(n, hundred);
    lemma_quotient_error(n, hundred);
    let l = n.quotient(hundred);
    let g = size(l.worth() - z);
    assert(g * c <= 4 as real * x + 2 as real) by {
        if !(g * 9007199254740992 as real <= size(z)) {
            assert(g * c <= g * w) by (nonlinear_arith)
                requires
                    w >= c,
                    g >= 0 as real,
            ;
        }
    }
    lemma_size_error(y, a.worth(), n.worth(), l.worth(), x, e);
    let floor = Double::ratio(1, 100);
    lemma_ratio_worth(1, 100);
    lemma_extremes(l, max_position_lots);
    lemma_extremes(l.smaller(max_position_lots), floor);
    let f = 1 as real / 100 as real;
    assert(1int as real * size(f) == f) by (nonlinear_arith)
        requires
            size(f) == f,
    ;
    lemma_held(
        l.worth(),
        x,
        max_position_lots.worth(),
        floor.worth(),
        tradable_lots(lots, max_position_lots).worth(),
    );
}

proof fn lemma_size_error(y: real, a: real, n: real, l: real, x: real, e: real)
    requires
        x > 0 as real,
        size(y - x) * 4503599627370496 as real <= 7 as real * x,
        size(a - y * 100 as real) * 4503599627370496 as real <= 200 as real * x + 1 as real,
        size(a) <= 300 as real * x + 1 as real,
        (size(n - a) - 1 as real / 2 as real) * 4503599627370496 as real <= size(a) + 1 as real,
        size(l - n / 100 as real) * 4503599627370496 as real <= 4 as real * x + 2 as real,
    ensures
        (size(l - x) - 1 as real / 200 as real) * 2199023255552 as real <= x + 1 as real,
{
    let c = 4503599627370496 as real;
    let (ey, ea, en, el) = (
        size(y - x),
        size(a - y * 100 as real),
        size(n - a),
        size(l - n / 100 as real),
    );
    assert(size(n - x * 100 as real) <= en + ea + 100 as real * ey);
    assert(100 as real * size(l - x) <= 100 as real * el + size(n - x * 100 as real));
}

proof fn lemma_held(l: real, x: real, most: real, floor: real, r: real)
    requires
        x > 0 as real,
        (size(l - x) - 1 as real / 200 as real) * 2199023255552 as real <= x + 1 as real,
        size(floor - 1 as real / 100 as real) * 4503599627370496 as real <= 1 as real / 100 as real,
        ({
            let capped = if most < l {
                most
            } else {
                l
            };
            r == if capped < floor {
                floor
            } else {
                capped
            }
        }),
    ensures
        (size(r - held_between(x, most)) - 1 as real / 200 as real) * 1099511627776 as real <= x
            + 1 as real,
{
}

/// So many hundredths.
pub open spec fn hundredths(n: int) -> real {
    n as real / 100 as real
}

/// Lots that are not cut to the largest position are a whole number of hundredths.
proof fn lemma_whole_hundredths(lots: Double, max_position_lots: Double, x: real)
    requires
        lots.finite(),
        max_position_lots.finite(),
        x > 0 as real,
        x <= 1099511627776 as real,
        near(lots.worth(), x, 7),
    ensures
        tradable_lots(lots, max_position_lots) == max_position_lots || exists|n: int|
            n > 0 && near(
                tradable_lots(lots, max_position_lots).worth(),
                #[trigger] hundredths(n),
                1,
            ),
{
    let hundred = Double::of_integer(100);
    let floor = Double::ratio(1, 100);
    let y = lots.worth();
    let c = 4503599627370496 as real;
    let w = unit_count();
    lemma_integer_worth(100);
    lemma_ratio_worth(1, 100);
    lemma2_to64();
    lemma_pow2_strictly_increases(64, 1000);
    lemma_pow2_strictly_increases(64, 1074);
    assert(7int as real * size(x) == 7 as real * x) by (nonlinear_arith)
        requires
            size(x) == x,
    ;
    assert(size(y * 100 as real) <= 200 as real * x);
    assert(size(lots.worth() * hundred.worth()) <= pow2(1000) as real);
    lemma_product_is_finite(lots, hundred);
    lemma_product_error(lots, hundred);
    let a = lots.product(hundred);
    let e = size(a.worth() - y * 100 as real);
    assert(e * c <= 200 as real * x + 1 as real) by {
        if !(e * 9007199254740992 as real <= size(y * 100 as real)) {
            assert(e * c <= e * w) by (nonlinear_arith)
                requires
                    w >= c,
                    e >= 0 as real,
            ;
        }
    }
    assert(size(a.worth()) <= 300 as real * x + 1 as real);
    let n = lemma_nearest_whole(a);
    law_rounding_goes_to_the_nearest_whole(a, n);
    let whole = a.integral();
    let q = whole.quotient(hundred);
    let z = n as real;
    assert(whole.finite()) by {
        assert(size(a.worth()) <= pow2(900) as real) by {
            lemma_pow2_strictly_increases(64, 900);
        }
        lemma_integral_worth(a);
    }
    assert(near(floor.worth(), hundredths(1), 1));
    if n == 0 {
        lemma_worth(whole);
        lemma_worth(hundred);
        double::lemma_zero_over(whole, hundred);
        assert(q.rank() <= 0);
        double::lemma_ratio_is_defined(1, 100);
        lemma_worth(floor);
        assert(q.smaller(max_position_lots).rank() <= 0);
    } else {
        lemma_sized_integer(n);
        lemma_sized_integer(100);
        lemma_sized_quotient(z, 100 as real, 53, 53);
        lemma_sized_widens(z / 100 as real, 106, 900);
        lemma_itself(z, 0);
        lemma_itself(100 as real, 0);
        assert(whole.worth() == z) by {
            lemma_signs(a);
            lemma_signs(whole);
            assert(y >= 0 as real);
            assert(a.worth() >= 0 as real);
        }
        lemma_over(whole, hundred, z, 100 as real, 0, 0);
        assert(near(q.worth(), hundredths(n as int), 1));
    }
}

/// Without a stop distance, or with a pip that is worth nothing, lots follow the equity alone.
pub proof fn law_without_a_stop_lots_follow_the_equity(
    limits: RiskLimits,
    equity: Double,
    sl_pips: Double,
    tick_value: Double,
    point: Double,
    digits: u32,
)
    requires
        (sl_pips.finite() && sl_pips.worth() <= 0 as real) || (tick_value.finite()
            && tick_value.worth() <= 0 as real && point.finite() && point.worth() <= pow2(100) as real),
    ensures
        limits.risk_based_lots(equity, sl_pips, tick_value, point, digits) == limits.initial_lots(
            equity,
        ),
{
    let zero = Double::of_integer(0);
    lemma_integer_worth(0);
    if sl_pips.finite() && sl_pips.worth() <= 0 as real {
        lemma_order(sl_pips, zero);
    } else {
        let one = Double::of_integer(1);
        let size_of_pip = point_per_pip(digits);
        let eff = point.larger(Double::ratio(1, 1000000));
        let unit = size_of_pip.quotient(eff);
        lemma_integer_worth(1);
        lemma_sized_unit(1 as real);
        lemma_sized_widens(1 as real, 1, 100);
        lemma_pip_worth(one, point, digits);
        lemma_ratio_worth(1, 1000000);
        lemma_ratio_worth(1, 10000);
        lemma_ratio_worth(1, 100);
        lemma_extremes(point, Double::ratio(1, 1000000));
        lemma_near_keeps_side(Double::ratio(1, 10000).worth(), 1 as real / 10000 as real, 1);
        lemma_near_keeps_side(Double::ratio(1, 100).worth(), 1 as real / 100 as real, 1);
        lemma_near_keeps_side(Double::ratio(1, 1000000).worth(), 1 as real / 1000000 as real, 1);
        lemma_worth(size_of_pip);
        lemma_worth(eff);
        lemma_worth(tick_value);
        lemma_quotient_falls(size_of_pip, eff, eff);
        assert(unit.finite()) by {
            reveal(Double::product);
        }
        assert(unit.magnitude() > 0) by {
            let value = RiskLimits::pip_value(one, point, digits);
            lemma_near_keeps_side(value.worth(), pip_worth(one, point, digits), 4);
            lemma_worth(value);
            if unit.magnitude() == 0 {
                double::lemma_product_commutes(one, unit);
                double::lemma_zero_times(unit, one);
            }
        }
        assert(!tick_value.product(unit).undefined()) by {
            double::lemma_product_is_defined(tick_value, unit);
        }
        double::lemma_product_not_above_zero(tick_value, unit);
        double::lemma_integer_is_finite(0);
    }
}

/// Lots by risk: a stop that is hit loses the configured share of the equity. Up to half a
/// hundredth of a lot, and between the bounds, the lots times the stop distance in pips times
/// what a pip is worth for one lot is that share. The lots are whole hundredths, but for the
/// largest position.
pub proof fn law_risk_is_the_share_of_the_equity(
    limits: RiskLimits,
    equity: Double,
    sl_pips: Double,
    tick_value: Double,
    point: Double,
    digits: u32,
)
    requires
        ordinary(equity),
        ordinary(limits.risk_per_trade_pct),
        ordinary(sl_pips),
        ordinary(tick_value),
        point.finite(),
        point.worth() <= pow2(100) as real,
        limits.max_position_lots.finite(),
    ensures
        ({
            let r = limits.risk_based_lots(equity, sl_pips, tick_value, point, digits);
            let at_risk = equity.worth() * limits.risk_per_trade_pct.worth();
            let exact = at_risk / (sl_pips.worth() * pip_worth(tick_value, point, digits));
            &&& r.finite()
            &&& (size(r.worth() - held_between(exact, limits.max_position_lots.worth())) - 1 as real
                / 200 as real) * 1099511627776 as real <= exact + 1 as real
            &&& exact <= 1099511627776 as real ==> r == limits.max_position_lots || exists|n: int|
                n > 0 && near(r.worth(), #[trigger] hundredths(n), 1)
        }),
{
    let zero = Double::of_integer(0);
    let (e, k, d) = (equity.worth(), limits.risk_per_trade_pct.worth(), sl_pips.worth());
    let v = pip_worth(tick_value, point, digits);
    let value = RiskLimits::pip_value(tick_value, point, digits);
    lemma_integer_worth(0);
    lemma_pip_worth(tick_value, point, digits);
    lemma_near_keeps_side(value.worth(), v, 4);
    lemma_order(sl_pips, zero);
    lemma_order(value, zero);
    lemma_itself(e, 0);
    lemma_itself(k, 0);
    lemma_itself(d, 0);
    lemma_sized_product(e, k, 100, 100);
    lemma_sized_widens(e * k, 200, 900);
    lemma_times(equity, limits.risk_per_trade_pct, e, k, 0, 0);
    lemma_sized_product(d, v, 100, 312);
    lemma_sized_widens(d * v, 412, 900);
    lemma_times(sl_pips, value, d, v, 0, 4);
    lemma_sized_quotient(e * k, d * v, 200, 412);
    let x = e * k / (d * v);
    lemma_sized_widens(x, 612, 900);
    lemma_sized_widens(x, 612, 700);
    let lots = equity.product(limits.risk_per_trade_pct).quotient(sl_pips.product(value));
    lemma_over(equity.product(limits.risk_per_trade_pct), sl_pips.product(value), e * k, d * v, 1, 5);
    assert(x > 0 as real) by {
        let (a, b) = (e * k, d * v);
        assert(a > 0 as real && b > 0 as real) by (nonlinear_arith)
            requires
                a == e * k,
                b == d * v,
                e > 0 as real,
                k > 0 as real,
                d > 0 as real,
                v > 0 as real,
        ;
        assert(x > 0 as real) by (nonlinear_arith)
            requires
                x == a / b,
                a > 0 as real,
                b > 0 as real,
        ;
    }
    lemma_tradable(lots, limits.max_position_lots, x);
    if x <= 1099511627776 as real {
        lemma_whole_hundredths(lots, limits.max_position_lots, x);
    }
}

/// A larger divisor gives no larger quotient.
proof fn lemma_quotient_falls(a: Double, b: Double, larger: Double)
    requires
        a.finite(),
        a.rank() >= 0,
        b.finite(),
        larger.finite(),
        b.rank() > 0,
        b.rank() <= larger.rank(),
    ensures
        0 <= a.quotient(larger).rank() <= a.quotient(b).rank(),
{
    reveal(Double::quotient);
    let (ua, ub, ul) = (
        double::units(a.magnitude()),
        double::units(b.magnitude()),
        double::units(larger.magnitude()),
    );
    double::lemma_units_positive(a.magnitude());
    double::lemma_units_positive(b.magnitude());
    if b.magnitude() < larger.magnitude() {
        double::lemma_units_increase(b.magnitude(), larger.magnitude());
    }
    rounding::lemma_rounded_falls_with_divisor(ua * pow2(1074), ub, ul);
    if a.magnitude() == 0 {
        double::lemma_zero_over(a, b);
        double::lemma_zero_over(a, larger);
    }
}

/// Rounding to whole numbers keeps the order.
proof fn lemma_integral_is_monotone(a: Double, larger: Double)
    requires
        a.finite(),
        larger.finite(),
        !a.negative(),
        !larger.negative(),
        a.rank() <= larger.rank(),
    ensures
        0 <= a.integral().rank() <= larger.integral().rank(),
{
    reveal(Double::integral);
    let one = pow2(1074);
    let (u, v) = (double::units(a.magnitude()), double::units(larger.magnitude()));
    lemma_pow2_pos(1074);
    if a.magnitude() < larger.magnitude() {
        double::lemma_units_increase(a.magnitude(), larger.magnitude());
    }
    let (n, m) = ((2 * u + one) / (2 * one), (2 * v + one) / (2 * one));
    lemma_div_is_ordered((2 * u + one) as int, (2 * v + one) as int, (2 * one) as int);
    assert(n * one <= m * one) by (nonlinear_arith)
        requires
            n <= m,
    ;
    rounding::lemma_rounded_is_monotone(n * one, m * one, 1);
}

/// Rounding to hundredths and the bounds keep the order.
proof fn lemma_tradable_is_monotone(lots: Double, larger: Double, max_position_lots: Double)
    requires
        lots.finite(),
        larger.finite(),
        !lots.negative(),
        !larger.negative(),
        lots.rank() <= larger.rank(),
        larger.worth() <= pow2(700) as real,
        max_position_lots.finite(),
    ensures
        tradable_lots(lots, max_position_lots).at_most(tradable_lots(larger, max_position_lots)),
{
    let hundred = Double::of_integer(100);
    double::lemma_integer_is_finite(100);
    lemma_integer_worth(100);
    lemma_order(lots, larger);
    lemma_signs(lots);
    lemma_signs(larger);
    lemma_pow2_adds(700, 7);
    lemma2_to64();
    lemma_pow2_strictly_increases(707, 890);
    lemma_pow2_strictly_increases(890, 1000);
    lemma_pow2_strictly_increases(890, 900);
    lemma_product_is_finite(lots, hundred);
    lemma_product_is_finite(larger, hundred);
    double::lemma_product_is_monotone(lots, larger, hundred);
    lemma_product_flag(lots, hundred);
    lemma_product_flag(larger, hundred);
    let (a, b) = (lots.product(hundred), larger.product(hundred));
    lemma_integral_is_monotone(a, b);
    assert(!a.integral().undefined() && !b.integral().undefined()) by {
        reveal(Double::integral);
    }
    double::lemma_quotient_is_defined(a.integral(), hundred);
    double::lemma_quotient_is_defined(b.integral(), hundred);
    double::lemma_quotient_is_monotone(a.integral(), b.integral(), hundred);
    double::lemma_ratio_is_defined(1, 100);
}

/// Lots of nothing or less become the smallest position.
proof fn lemma_no_lots_are_a_hundredth(lots: Double, max_position_lots: Double)
    requires
        lots.finite(),
        lots.worth() <= 0 as real,
        size(lots.worth()) <= pow2(700) as real,
        max_position_lots.finite(),
    ensures
        tradable_lots(lots, max_position_lots) == Double::ratio(1, 100),
{
    let hundred = Double::of_integer(100);
    let floor = Double::ratio(1, 100);
    lemma_integer_worth(100);
    lemma_ratio_worth(1, 100);
    lemma_near_keeps_side(floor.worth(), 1 as real / 100 as real, 1);
    lemma_pow2_pos(700);
    lemma_pow2_adds(700, 20);
    lemma2_to64();
    lemma_pow2_strictly_increases(720, 900);
    lemma_pow2_strictly_increases(900, 1000);
    lemma_pow2_strictly_increases(64, 700);
    lemma_pow2_strictly_increases(64, 1074);
    assert(pow2(720) as real == pow2(700) as real * 1048576 as real);
    lemma_product_is_finite(lots, hundred);
    lemma_product_error(lots, hundred);
    let a = lots.product(hundred);
    let w = unit_count();
    let y = lots.worth() * 100 as real;
    let e = size(a.worth() - y);
    assert(e <= size(y) + 1 as real) by {
        if !(e * 9007199254740992 as real <= size(y)) {
            assert(e <= e * w) by (nonlinear_arith)
                requires
                    w >= 1 as real,
                    e >= 0 as real,
            ;
        }
    }
    lemma_worth(lots);
    lemma_worth(hundred);
    lemma_worth(a);
    double::lemma_product_not_above_zero(lots, hundred);
    assert(size(a.worth()) <= pow2(900) as real);
    lemma_integral_worth(a);
    let n = a.integral();
    if a.worth() == 0 as real {
        law_rounding_goes_to_the_nearest_whole(a, 0);
    } else {
        lemma_signs(a);
        lemma_signs(n);
    }
    let q = n.quotient(hundred);
    assert(size(n.worth() / hundred.worth()) <= pow2(1000) as real);
    lemma_quotient_is_finite(n, hundred);
    lemma_worth(n);
    if n.worth() == 0 as real {
        double::lemma_zero_over(n, hundred);
        lemma_worth(q);
    } else {
        law_quotient_is_next_to_the_exact(n, hundred, hundred);
        lemma_signs(n);
        lemma_signs(hundred);
        lemma_signs(q);
    }
    lemma_extremes(q, max_position_lots);
    lemma_extremes(q.smaller(max_position_lots), floor);
    lemma_order(q.smaller(max_position_lots), floor);
}

/// Equity of less than nothing risks the smallest position.
pub proof fn law_no_equity_is_the_smallest_position(
    limits: RiskLimits,
    equity: Double,
    sl_pips: Double,
    tick_value: Double,
    point: Double,
    digits: u32,
)
    requires
        equity.finite(),
        equity.worth() < 0 as real,
        sized(equity.worth(), 100),
        ordinary(limits.risk_per_trade_pct),
        ordinary(sl_pips),
        ordinary(tick_value),
        point.finite(),
        point.worth() <= pow2(100) as real,
        limits.max_position_lots.finite(),
    ensures
        near(
            limits.risk_based_lots(equity, sl_pips, tick_value, point, digits).worth(),
            1 as real / 100 as real,
            1,
        ),
{
    let zero = Double::of_integer(0);
    let (e, k, d) = (equity.worth(), limits.risk_per_trade_pct.worth(), sl_pips.worth());
    let v = pip_worth(tick_value, point, digits);
    let value = RiskLimits::pip_value(tick_value, point, digits);
    lemma_integer_worth(0);
    lemma_ratio_worth(1, 100);
    lemma_pip_worth(tick_value, point, digits);
    lemma_near_keeps_side(value.worth(), v, 4);
    lemma_order(sl_pips, zero);
    lemma_order(value, zero);
    lemma_itself(e, 0);
    lemma_itself(k, 0);
    lemma_itself(d, 0);
    lemma_sized_product(e, k, 100, 100);
    lemma_sized_widens(e * k, 200, 900);
    lemma_times(equity, limits.risk_per_trade_pct, e, k, 0, 0);
    lemma_sized_product(d, v, 100, 312);
    lemma_sized_widens(d * v, 412, 900);
    lemma_times(sl_pips, value, d, v, 0, 4);
    lemma_sized_quotient(e * k, d * v, 200, 412);
    let x = e * k / (d * v);
    lemma_sized_widens(x, 612, 900);
    lemma_pow2_strictly_increases(613, 700);
    lemma_pow2_unfold(613);
    let lots = equity.product(limits.risk_per_trade_pct).quotient(sl_pips.product(value));
    lemma_over(equity.product(limits.risk_per_trade_pct), sl_pips.product(value), e * k, d * v, 1, 5);
    let (a, b) = (e * k, d * v);
    assert(a < 0 as real && b > 0 as real) by (nonlinear_arith)
        requires
            a == e * k,
            b == d * v,
            e < 0 as real,
            k > 0 as real,
            d > 0 as real,
            v > 0 as real,
    ;
    assert(x < 0 as real) by (nonlinear_arith)
        requires
            x == a / b,
            a < 0 as real,
            b > 0 as real,
    ;
    lemma_near_keeps_side(lots.worth(), x, 7);
    let y = lots.worth();
    assert(7int as real * size(x) == 7 as real * -x) by (nonlinear_arith)
        requires
            size(x) == -x,
    ;
    assert(size(y - x) * 4503599627370496 as real <= 7 as real * -x);
    assert(size(y) <= 2 as real * -x);
    lemma_no_lots_are_a_hundredth(lots, limits.max_position_lots);
}

/// A pip that is worth more never gives a larger position, and neither does a stop that is
/// further away.
pub proof fn law_more_at_stake_is_no_larger_position(
    limits: RiskLimits,
    equity: Double,
    sl_pips: Double,
    wider_sl_pips: Double,
    tick_value: Double,
    larger_tick_value: Double,
    point: Double,
    digits: u32,
)
    requires
        ordinary(equity),
        ordinary(limits.risk_per_trade_pct),
        ordinary(sl_pips),
        ordinary(wider_sl_pips),
        sl_pips.at_most(wider_sl_pips),
        ordinary(tick_value),
        ordinary(larger_tick_value),
        tick_value.at_most(larger_tick_value),
        point.finite(),
        point.worth() <= pow2(100) as real,
        limits.max_position_lots.finite(),
    ensures
        limits.risk_based_lots(equity, wider_sl_pips, larger_tick_value, point, digits).at_most(
            limits.risk_based_lots(equity, sl_pips, tick_value, point, digits),
        ),
{
    let zero = Double::of_integer(0);
    lemma_integer_worth(0);
    let unit = point_per_pip(digits).quotient(point.larger(Double::ratio(1, 1000000)));
    let (v, w) = (
        RiskLimits::pip_value(tick_value, point, digits),
        RiskLimits::pip_value(larger_tick_value, point, digits),
    );
    let risk = equity.product(limits.risk_per_trade_pct);
    lemma_pip_worth(tick_value, point, digits);
    lemma_pip_worth(larger_tick_value, point, digits);
    lemma_near_keeps_side(v.worth(), pip_worth(tick_value, point, digits), 4);
    lemma_near_keeps_side(w.worth(), pip_worth(larger_tick_value, point, digits), 4);
    lemma_worth(v);
    lemma_worth(w);
    lemma_worth(tick_value);
    lemma_worth(larger_tick_value);
    lemma_worth(sl_pips);
    lemma_worth(wider_sl_pips);
    lemma_order(sl_pips, zero);
    lemma_order(wider_sl_pips, zero);
    lemma_order(v, zero);
    lemma_order(w, zero);
    lemma_unit_is_above_zero(tick_value, unit);
    double::lemma_product_is_monotone(tick_value, larger_tick_value, unit);
    lemma_risk_lots(limits, equity, sl_pips, tick_value, point, digits);
    lemma_risk_lots(limits, equity, wider_sl_pips, larger_tick_value, point, digits);
    let (c, d) = (sl_pips.product(v), wider_sl_pips.product(w));
    lemma_risk_lots(limits, equity, wider_sl_pips, tick_value, point, digits);
    let middle = wider_sl_pips.product(v);
    double::lemma_product_is_monotone(sl_pips, wider_sl_pips, v);
    double::lemma_product_commutes(wider_sl_pips, v);
    double::lemma_product_commutes(wider_sl_pips, w);
    double::lemma_product_is_monotone(v, w, wider_sl_pips);
    lemma_quotient_falls(risk, c, d);
    lemma_tradable_is_monotone(risk.quotient(d), risk.quotient(c), limits.max_position_lots);
}

/// A product above zero with a factor above zero has another one not below zero.
proof fn lemma_unit_is_above_zero(a: Double, b: Double)
    requires
        a.finite(),
        a.rank() > 0,
        a.product(b).finite(),
        a.product(b).rank() > 0,
    ensures
        b.rank() > 0,
{
    lemma_product_flag(a, b);
    if b.magnitude() == 0 {
        double::lemma_zero_times(b, a);
        double::lemma_product_commutes(a, b);
    }
}

/// What sizes by risk are rounded from.
proof fn lemma_risk_lots(
    limits: RiskLimits,
    equity: Double,
    sl_pips: Double,
    tick_value: Double,
    point: Double,
    digits: u32,
)
    requires
        ordinary(equity),
        ordinary(limits.risk_per_trade_pct),
        ordinary(sl_pips),
        ordinary(tick_value),
        point.finite(),
        point.worth() <= pow2(100) as real,
    ensures
        ({
            let value = RiskLimits::pip_value(tick_value, point, digits);
            let risk = equity.product(limits.risk_per_trade_pct);
            let stake = sl_pips.product(value);
            let lots = risk.quotient(stake);
            &&& risk.finite()
            &&& risk.rank() > 0
            &&& stake.finite()
            &&& stake.rank() > 0
            &&& lots.finite()
            &&& !lots.negative()
            &&& lots.worth() <= pow2(700) as real
        }),
{
    let (e, k, d) = (equity.worth(), limits.risk_per_trade_pct.worth(), sl_pips.worth());
    let v = pip_worth(tick_value, point, digits);
    let value = RiskLimits::pip_value(tick_value, point, digits);
    let risk = equity.product(limits.risk_per_trade_pct);
    let stake = sl_pips.product(value);
    let lots = risk.quotient(stake);
    lemma_pip_worth(tick_value, point, digits);
    lemma_itself(e, 0);
    lemma_itself(k, 0);
    lemma_itself(d, 0);
    lemma_sized_product(e, k, 100, 100);
    lemma_sized_widens(e * k, 200, 900);
    lemma_times(equity, limits.risk_per_trade_pct, e, k, 0, 0);
    lemma_sized_product(d, v, 100, 312);
    lemma_sized_widens(d * v, 412, 900);
    lemma_times(sl_pips, value, d, v, 0, 4);
    lemma_sized_quotient(e * k, d * v, 200, 412);
    let x = e * k / (d * v);
    lemma_sized_widens(x, 612, 900);
    lemma_over(risk, stake, e * k, d * v, 1, 5);
    assert(e * k > 0 as real && d * v > 0 as real) by (nonlinear_arith)
        requires
            e > 0 as real,
            k > 0 as real,
            d > 0 as real,
            v > 0 as real,
    ;
    let (a, b) = (e * k, d * v);
    assert(x > 0 as real) by (nonlinear_arith)
        requires
            x == a / b,
            a > 0 as real,
            b > 0 as real,
    ;
    lemma_near_keeps_side(risk.worth(), a, 1);
    lemma_near_keeps_side(stake.worth(), b, 5);
    lemma_near_keeps_side(lots.worth(), x, 7);
    lemma_worth(risk);
    lemma_worth(stake);
    lemma_worth(lots);
    lemma_signs(lots);
    lemma_pow2_unfold(613);
    lemma_pow2_strictly_increases(613, 700);
    assert(7int as real * size(x) == 7 as real * x) by (nonlinear_arith)
        requires
            size(x) == x,
    ;
}

/// A scale-in comes from locked profit alone: with scale-ins left and enough of the usable
/// share locked in, it is a thousandth of a lot for each unit of that share, three tenths of
/// it for the first, four for the second and five for the third, and no more than the
/// position may still grow by.
pub proof fn law_scale_in_is_a_share_of_locked_profit(limits: RiskLimits, run: TradingRun)
    requires
        run.locked_profit.finite(),
        sized(run.locked_profit.worth(), 100),
        ordinary(limits.profit_scale_ratio),
        limits.min_scale_profit.finite(),
        limits.max_position_lots.finite(),
        run.current_lots.finite(),
        size(limits.max_position_lots.worth() - run.current_lots.worth()) <= pow2(1000) as real,
    ensures
        ({
            let usable = run.locked_profit.worth() * limits.profit_scale_ratio.worth();
            let least = limits.min_scale_profit.worth();
            let room = limits.max_position_lots.worth() - run.current_lots.worth();
            let verdict = limits.scale_verdict(run);
            &&& run.scale_count >= limits.max_scales ==> verdict == Err::<Double, RiskVeto>(
                RiskVeto::MaxScalesReached,
            )
            &&& run.scale_count < limits.max_scales && beyond(least, usable) ==> verdict == Err::<
                Double,
                RiskVeto,
            >(RiskVeto::InsufficientLockedProfit)
            &&& run.scale_count < limits.max_scales && exact_product(
                run.locked_profit,
                limits.profit_scale_ratio,
            ) ==> (verdict is Ok <==> usable >= least)
            &&& run.scale_count < limits.max_scales && beyond(usable, least) ==> {
                &&& verdict is Ok
                &&& verdict->Ok_0.finite()
                &&& run.scale_count < 3 ==> {
                    let exact = usable * (1 as real / 1000 as real) * ((3 + run.scale_count) as real
                        / 10 as real);
                    &&& beyond(room, exact) ==> near(verdict->Ok_0.worth(), exact, 5)
                    &&& beyond(exact, room) ==> near(verdict->Ok_0.worth(), room, 1)
                }
                &&& run.scale_count >= 3 && room > 0 as real ==> verdict->Ok_0.worth() == 0 as real
            }
        }),
{
    let (p, q) = (run.locked_profit.worth(), limits.profit_scale_ratio.worth());
    let usable = p * q;
    let available = run.locked_profit.product(limits.profit_scale_ratio);
    lemma_itself(p, 0);
    lemma_itself(q, 0);
    lemma_sized_product(p, q, 100, 100);
    lemma_sized_widens(usable, 200, 900);
    lemma_times(run.locked_profit, limits.profit_scale_ratio, p, q, 0, 0);
    let least = limits.min_scale_profit.worth();
    lemma_itself(least, 0);
    lemma_beyond(available.worth(), least, usable, least, 1, 0);
    lemma_order(available, limits.min_scale_profit);
    lemma_minus(limits.max_position_lots, run.current_lots);
    let space = limits.max_position_lots.difference(run.current_lots);
    let room = limits.max_position_lots.worth() - run.current_lots.worth();
    law_linear_lots(available, usable, run.scale_count);
    let lots = linear_lots(available, run.scale_count);
    lemma_extremes(lots, space);
    if run.scale_count < 3 {
        let exact = usable * (1 as real / 1000 as real) * ((3 + run.scale_count) as real
            / 10 as real);
        lemma_beyond(lots.worth(), space.worth(), exact, room, 5, 1);
    } else {
        lemma_near_keeps_side(space.worth(), room, 1);
    }
}

/// Lots of a scale-in, in terms of the profit that it may use.
pub proof fn law_linear_lots(available: Double, usable: real, scale_count: u8)
    requires
        available.finite(),
        near(available.worth(), usable, 1),
        sized(usable, 200),
    ensures
        linear_lots(available, scale_count).finite(),
        scale_count < 3 ==> near(
            linear_lots(available, scale_count).worth(),
            usable * (1 as real / 1000 as real) * ((3 + scale_count) as real / 10 as real),
            5,
        ),
        scale_count >= 3 ==> linear_lots(available, scale_count).worth() == 0 as real,
{
    let rate = Double::ratio(1, 1000);
    let r = 1 as real / 1000 as real;
    lemma_ratio_worth(1, 1000);
    lemma_ratio_worth(3, 10);
    lemma_ratio_worth(4, 10);
    lemma_ratio_worth(5, 10);
    lemma_sized_product(usable, r, 200, 106);
    lemma_sized_widens(usable * r, 306, 900);
    lemma_times(available, rate, usable, r, 1, 1);
    let base = available.product(rate);
    if scale_count < 3 {
        let f = (3 + scale_count) as real / 10 as real;
        let factor = risk_enforcer::scale_factor(scale_count);
        assert(near(factor.worth(), f, 1) && factor.finite() && sized(f, 106));
        lemma_sized_product(usable * r, f, 306, 106);
        lemma_sized_widens(usable * r * f, 412, 900);
        lemma_times(base, factor, usable * r, f, 3, 1);
    } else {
        lemma_integer_worth(0);
        double::lemma_integer_is_finite(0);
        double::lemma_product_commutes(base, Double::of_integer(0));
        double::lemma_zero_times(Double::of_integer(0), base);
        lemma_worth(linear_lots(available, scale_count));
    }
}

/// An entry is vetoed for its cause alone, in the order of the limits, and one within every
/// limit is approved.
pub proof fn law_entry_is_vetoed_for_cause(
    enforcer: RiskEnforcer,
    symbol: Seq<char>,
    account: Account,
    symbol_positions: u32,
)
    requires
        account.daily_pnl.finite(),
        enforcer.limits().daily_loss_limit.finite(),
        account.current_spread.finite(),
        account.avg_spread.finite(),
        sized(account.avg_spread.worth(), 100),
        ordinary(enforcer.spread_multiplier_of(symbol)),
        enforcer.spread_cap_of(symbol).finite(),
    ensures
        ({
            let verdict = enforcer.entry_verdict(symbol, account, symbol_positions);
            let lost = account.daily_pnl.worth() < -enforcer.limits().daily_loss_limit.worth();
            let full = account.open_positions >= enforcer.limits().max_parallel_trades;
            let crowded = symbol_positions >= enforcer.limits().max_trades_per_symbol;
            let spread = account.current_spread.worth();
            let usual = account.avg_spread.worth() * enforcer.spread_multiplier_of(symbol).worth();
            let cap = enforcer.spread_cap_of(symbol).worth();
            let slow = account.current_latency_ms > enforcer.latency_cap_of(symbol);
            let fits = !lost && !full && !crowded;
            &&& lost <==> verdict == Err::<(), RiskVeto>(RiskVeto::DailyLimitHit)
            &&& !lost && full <==> verdict == Err::<(), RiskVeto>(
                RiskVeto::MaxParallelTradesReached,
            )
            &&& !lost && !full && crowded <==> verdict == Err::<(), RiskVeto>(
                RiskVeto::MaxTradesPerSymbolReached,
            )
            &&& fits && (beyond(spread, usual) || spread > cap) ==> verdict == Err::<(), RiskVeto>(
                RiskVeto::SpreadTooWide,
            )
            &&& fits && exact_product(account.avg_spread, enforcer.spread_multiplier_of(symbol))
                ==> (spread > usual || spread > cap <==> verdict == Err::<(), RiskVeto>(
                RiskVeto::SpreadTooWide,
            ))
            &&& fits && beyond(usual, spread) && spread <= cap ==> verdict == if slow {
                Err::<(), RiskVeto>(RiskVeto::LatencyTooHigh)
            } else {
                Ok(())
            }
        }),
{
    let limit = enforcer.limits().daily_loss_limit;
    let multiplier = enforcer.spread_multiplier_of(symbol);
    let (a, m) = (account.avg_spread.worth(), multiplier.worth());
    let spread = account.current_spread.worth();
    lemma_negated(limit);
    lemma_order(account.daily_pnl, limit.negated());
    lemma_itself(a, 0);
    lemma_itself(m, 0);
    lemma_itself(spread, 0);
    lemma_sized_product(a, m, 100, 100);
    lemma_sized_widens(a * m, 200, 900);
    lemma_times(account.avg_spread, multiplier, a, m, 0, 0);
    let usual = account.avg_spread.product(multiplier);
    lemma_beyond(usual.worth(), spread, a * m, spread, 1, 0);
    lemma_order(usual, account.current_spread);
    lemma_order(enforcer.spread_cap_of(symbol), account.current_spread);
}

/// A reversal without rounding: a peak above zero of at least three pips, a total that is
/// still above zero, and more than the threshold's share of the peak lost.
pub proof fn law_reversal_has_exact_bounds(
    limits: RiskLimits,
    run: TradingRun,
    pip_multiplier: Double,
)
    requires
        run.peak_profit.finite(),
        run.total().finite(),
        limits.reversal_threshold.finite(),
        exact_quotient(run.peak_profit, run.current_lots),
        exact_product(run.peak_profit.quotient(run.current_lots), pip_multiplier),
        exact_difference(run.peak_profit, run.total()),
        exact_quotient(run.peak_profit.difference(run.total()), run.peak_profit),
    ensures
        ({
            let (peak, total) = (run.peak_profit.worth(), run.total().worth());
            let pips = peak / run.current_lots.worth() * pip_multiplier.worth();
            limits.reversed(run, pip_multiplier) <==> {
                &&& peak > 0 as real
                &&& pips >= 3 as real
                &&& total > 0 as real
                &&& (peak - total) / peak > limits.reversal_threshold.worth()
            }
        }),
{
    let zero = Double::of_integer(0);
    let three = Double::of_integer(3);
    lemma_integer_worth(0);
    lemma_integer_worth(3);
    lemma_order(run.peak_profit, zero);
    lemma_order(run.total(), zero);
    lemma_order(run.peak_profit.quotient(run.current_lots).product(pip_multiplier), three);
    lemma_order(
        limits.reversal_threshold,
        run.peak_profit.difference(run.total()).quotient(run.peak_profit),
    );
}

/// A run that stands at its peak is not reversed.
pub proof fn law_no_reversal_at_the_peak(
    limits: RiskLimits,
    run: TradingRun,
    pip_multiplier: Double,
)
    requires
        run.peak_profit.finite(),
        run.total().finite(),
        run.total().worth() == run.peak_profit.worth(),
        limits.reversal_threshold.finite(),
        limits.reversal_threshold.worth() >= 0 as real,
    ensures
        !limits.reversed(run, pip_multiplier),
{
    let (peak, total) = (run.peak_profit, run.total());
    let lost = peak.difference(total);
    let zero = Double::of_integer(0);
    lemma_integer_worth(0);
    lemma_order(peak, zero);
    lemma_order(peak, total);
    double::lemma_difference_has_the_sign_of_the_order(peak, total);
    if peak.worth() > 0 as real {
        lemma_worth(peak);
        lemma_order(lost, zero);
        double::lemma_zero_over(lost, peak);
        lemma_worth(lost.quotient(peak));
        lemma_order(limits.reversal_threshold, lost.quotient(peak));
    }
}

/// A run starts with its lots at its price and time, with nothing gained, lost, locked in or
/// added, and a first move is noticed from then on.
pub proof fn law_run_starts_at_nothing(
    symbol: String,
    entry_price: Double,
    initial_lots: Double,
    entry_time_ms: u64,
    sl_pips: Double,
    tp_pips: Double,
)
    ensures
        ({
            let run = TradingRun::started(
                symbol,
                entry_price,
                initial_lots,
                entry_time_ms,
                sl_pips,
                tp_pips,
            );
            &&& run.symbol == symbol
            &&& run.entry_price == entry_price
            &&& run.current_lots == initial_lots
            &&& run.entry_time_ms == entry_time_ms
            &&& run.last_price_change_ms == entry_time_ms
            &&& run.sl_pips == sl_pips && run.tp_pips == tp_pips
            &&& run.scale_count == 0
            &&& run.locked_profit.worth() == 0 as real
            &&& run.unrealized_pnl.worth() == 0 as real
            &&& run.peak_profit.worth() == 0 as real
            &&& run.total().worth() == 0 as real
        }),
{
    let zero = Double::of_integer(0);
    let t = size(0 as real);
    lemma_integer_worth(0);
    lemma_pow2_pos(1000);
    lemma_plus(zero, zero);
    assert(1int as real * t == t) by (nonlinear_arith);
}

/// Each limit is the configured value of its own name, and no daily loss is allowed before a
/// balance is known.
pub proof fn law_limits_are_configured(config: AppConfig)
    ensures
        ({
            let limits = configured(config);
            &&& limits.daily_loss_limit.worth() == 0 as real
            &&& limits.daily_loss_pct == config.account.daily_loss_limit_pct
            &&& limits.max_parallel_trades == config.account.max_parallel_trades
            &&& limits.max_trades_per_symbol == config.account.max_trades_per_symbol
            &&& limits.max_position_lots == config.account.max_position_lots
            &&& limits.lot_per_1000 == config.account.lot_per_1000
            &&& limits.risk_per_trade_pct == config.account.risk_per_trade_pct
            &&& limits.max_scales == config.scaling.max_scales
            &&& limits.min_scale_profit == config.scaling.min_scale_profit
            &&& limits.profit_scale_ratio == config.scaling.profit_scale_ratio
            &&& limits.reversal_threshold == config.exit.reversal_threshold_pct
            &&& limits.stall_timeout_ms == config.exit.stall_timeout_ms
            &&& limits.max_spread_multiplier == config.execution.max_spread_multiplier
            &&& limits.max_spread_pips == config.execution.max_spread_pips
            &&& limits.max_latency_ms == config.execution.max_latency_ms
        }),
{
    lemma_integer_worth(0);
}

} // verus!
