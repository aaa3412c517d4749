//! Fallbacks for when the strategy is not available, for testing and simulation.
use vstd::prelude::*;
use crate::double;
use crate::double::worth::{lemma_integer_worth, lemma_order};
use crate::double::Double;
use crate::python_bridge::{MomentumSignal, QualificationResult, VolatilityRegime};
use crate::risk_enforcer;

verus! {

/// Most scale-ins that a trade gets.
pub const MAX_SCALES: u8 = 3;

/// The momentum in the last `window` prices: the rate from the first to the last of them,
/// and how the second half of the move differs from the first half.
pub open spec fn momentum_of(prices: Seq<Double>, window: usize) -> MomentumSignal {
    if prices.len() < window {
        MomentumSignal::silent()
    } else {
        let recent = prices.skip(prices.len() - window);
        let middle = recent[window as int / 2];
        let change = recent.last().difference(recent.first());
        let velocity = change.product(Double::of_integer(10000)).quotient(
            Double::of_integer(window as u64).quotient(Double::of_integer(10)),
        );
        let acceleration = recent.last().difference(middle).difference(
            middle.difference(recent.first()),
        ).product(Double::of_integer(10000));
        MomentumSignal {
            detected: Double::ratio(1, 2).below(velocity.absolute())
                && acceleration.sign_of().same(velocity.sign_of()),
            direction: if Double::of_integer(0).below(change) {
                1
            } else if change.below(Double::of_integer(0)) {
                (-1int) as i8
            } else {
                0
            },
            strength: strength_of(velocity),
            velocity,
            acceleration,
            quality: None,
            ema_slope: Double::of_integer(0),
            volume_surge: false,
        }
    }
}

/// A tenth of the speed in pips per second, one at most.
pub open spec fn strength_of(velocity: Double) -> Double {
    velocity.absolute().smaller(Double::of_integer(10)).quotient(Double::of_integer(10))
}

/// Simple momentum detection.
pub fn detect_momentum_simple(prices: &[Double], window: usize) -> (r: MomentumSignal)
    requires
        window > 0,
    ensures
        r == momentum_of(prices@, window),
{
    if prices.len() < window {
        return MomentumSignal::default();
    }
    let start: usize = prices.len() - window;
    let mid: usize = window / 2;
    let first: Double = prices[start];
    let middle: Double = prices[start + mid];
    let last: Double = prices[prices.len() - 1];
    let zero: Double = Double::from_u64(0);
    let ten: Double = Double::from_u64(10);
    let pips: Double = Double::from_u64(10000);

    let change: Double = last.minus(first);
    // Rough pips per second
    let velocity: Double = change.times(pips).over(Double::from_u64(window as u64).over(ten));
    let first_half_change: Double = middle.minus(first);
    let second_half_change: Double = last.minus(middle);
    let acceleration: Double = second_half_change.minus(first_half_change).times(pips);
    let strength: Double = velocity.abs().min(ten).over(ten);
    let detected: bool = velocity.abs().is_above(Double::from_ratio(1, 2))
        && acceleration.signum().equals(velocity.signum());
    MomentumSignal {
        detected,
        direction: if change.is_above(zero) {
            1
        } else if change.is_below(zero) {
            -1
        } else {
            0
        },
        strength,
        velocity,
        acceleration,
        quality: None,
        ema_slope: zero,
        volume_surge: false,
    }
}

/// Why a trade does not qualify, if it does not.
pub open spec fn objection(
    momentum: MomentumSignal,
    spread: Double,
    avg_spread: Double,
    latency_ms: u64,
) -> Option<Seq<char>> {
    if avg_spread.product(Double::ratio(15, 10)).below(spread) {
        Some("spread_too_wide"@)
    } else if latency_ms > 50 {
        Some("latency_too_high"@)
    } else if !momentum.detected || momentum.strength.below(Double::ratio(3, 10)) {
        Some("momentum_too_weak"@)
    } else {
        None
    }
}

/// Simple qualification.
pub fn qualify_trade_simple(
    momentum: &MomentumSignal,
    spread: Double,
    avg_spread: Double,
    latency_ms: u64,
) -> (r: QualificationResult)
    ensures
        match objection(*momentum, spread, avg_spread, latency_ms) {
            Some(reason) => {
                &&& !r.qualified
                &&& r.rejection_reason is Some
                &&& r.rejection_reason->0@ == reason
                &&& r.suggested_lots == Double::of_integer(0)
                &&& r.confidence == Double::of_integer(0)
            },
            None => {
                &&& r.qualified
                &&& r.rejection_reason is None
                &&& r.suggested_lots == Double::ratio(1, 100)
                &&& r.confidence == momentum.strength
            },
        },
{
    if spread.is_above(avg_spread.times(Double::from_ratio(15, 10))) {
        return rejected("spread_too_wide");
    }
    if latency_ms > 50 {
        return rejected("latency_too_high");
    }
    if !momentum.detected || momentum.strength.is_below(Double::from_ratio(3, 10)) {
        return rejected("momentum_too_weak");
    }
    QualificationResult {
        qualified: true,
        rejection_reason: None,
        suggested_lots: Double::from_ratio(1, 100),
        confidence: momentum.strength,
    }
}

fn rejected(reason: &str) -> (r: QualificationResult)
    ensures
        !r.qualified,
        r.rejection_reason is Some,
        r.rejection_reason->0@ == reason@,
        r.suggested_lots == Double::of_integer(0),
        r.confidence == Double::of_integer(0),
{
    QualificationResult {
        qualified: false,
        rejection_reason: Some(reason.to_owned()),
        suggested_lots: Double::from_u64(0),
        confidence: Double::from_u64(0),
    }
}

/// Simple volatility regime detection.
pub fn get_volatility_regime(atr: Double) -> (r: VolatilityRegime)
    ensures
        r == if Double::of_integer(50).below(atr) {
            VolatilityRegime::Extreme
        } else if Double::of_integer(30).below(atr) {
            VolatilityRegime::High
        } else if atr.below(Double::of_integer(5)) {
            VolatilityRegime::Low
        } else {
            VolatilityRegime::Normal
        },
        atr.finite() ==> {
            &&& r == VolatilityRegime::Extreme <==> atr.worth() > 50 as real
            &&& r == VolatilityRegime::High <==> atr.worth() > 30 as real && atr.worth() <= 50 as real
            &&& r == VolatilityRegime::Low <==> atr.worth() < 5 as real
        },
{
    proof {
        if atr.finite() {
            lemma_integer_worth(50);
            lemma_integer_worth(30);
            lemma_integer_worth(5);
            lemma_order(Double::of_integer(50), atr);
            lemma_order(Double::of_integer(30), atr);
            lemma_order(atr, Double::of_integer(5));
        }
    }
    if atr.is_above(Double::from_u64(50)) {
        VolatilityRegime::Extreme
    } else if atr.is_above(Double::from_u64(30)) {
        VolatilityRegime::High
    } else if atr.is_below(Double::from_u64(5)) {
        VolatilityRegime::Low
    } else {
        VolatilityRegime::Normal
    }
}

/// Lots of a scale-in: a share of half the locked profit, a tenth of a lot at most, no more
/// than the position may grow by, and nothing once the scale-ins are used up or where less
/// than one is locked in.
pub open spec fn scale_lots(
    locked_profit: Double,
    current_lots: Double,
    scale_number: u8,
    max_lots: Double,
) -> Double {
    if scale_number >= MAX_SCALES || locked_profit.below(Double::of_integer(1)) {
        Double::of_integer(0)
    } else {
        risk_enforcer::linear_lots(
            locked_profit.product(Double::ratio(5, 10)),
            scale_number,
        ).smaller(Double::ratio(1, 10)).smaller(max_lots.difference(current_lots)).larger(
            Double::of_integer(0),
        )
    }
}

/// Calculate scale lots.
pub fn calculate_scale_lots(
    locked_profit: Double,
    current_lots: Double,
    scale_number: u8,
    max_lots: Double,
) -> (r: Double)
    ensures
        r == scale_lots(locked_profit, current_lots, scale_number, max_lots),
{
    let zero: Double = Double::from_u64(0);
    if scale_number >= MAX_SCALES || locked_profit.is_below(Double::from_u64(1)) {
        return zero;
    }
    let available: Double = locked_profit.times(Double::from_ratio(5, 10));
    let factor: Double = match scale_number {
        0 => Double::from_ratio(3, 10),
        1 => Double::from_ratio(4, 10),
        2 => Double::from_ratio(5, 10),
        _ => zero,
    };
    let base_lots: Double = available.times(Double::from_ratio(1, 1000)).times(factor);
    let capped: Double = base_lots.min(Double::from_ratio(1, 10));
    let remaining_capacity: Double = max_lots.minus(current_lots);
    capped.min(remaining_capacity).max(zero)
}

/// The strength of every signal lies between zero and one.
pub proof fn law_strength_is_a_share(prices: Seq<Double>, window: usize)
    ensures
        Double::of_integer(0).at_most(momentum_of(prices, window).strength),
        momentum_of(prices, window).strength.at_most(Double::of_integer(1)),
{
    double::lemma_integer_is_finite(0);
    double::lemma_integer_is_finite(1);
    double::lemma_integer_is_finite(10);
    if prices.len() >= window {
        let ten = Double::of_integer(10);
        let speed = momentum_of(prices, window).velocity.absolute().smaller(ten);
        assert(0 <= speed.rank() <= ten.rank());
        double::lemma_quotient_with_itself(ten);
        double::lemma_quotient_is_defined(speed, ten);
        double::lemma_quotient_is_monotone(speed, ten, ten);
    }
}

/// A trade qualifies only with a normal spread, a low latency and a signal that was found
/// and is strong enough.
pub proof fn law_qualified_trade_passes_every_check(
    momentum: MomentumSignal,
    spread: Double,
    avg_spread: Double,
    latency_ms: u64,
)
    requires
        objection(momentum, spread, avg_spread, latency_ms) is None,
    ensures
        !avg_spread.product(Double::ratio(15, 10)).below(spread),
        latency_ms <= 50,
        momentum.detected,
        !momentum.strength.below(Double::ratio(3, 10)),
{
}

/// A scale-in is never negative and never more than a tenth of a lot, and where the position
/// may still grow it stays within that room.
pub proof fn law_scale_lots_are_capped(
    locked_profit: Double,
    current_lots: Double,
    scale_number: u8,
    max_lots: Double,
)
    ensures
        Double::of_integer(0).at_most(
            scale_lots(locked_profit, current_lots, scale_number, max_lots),
        ),
        scale_lots(locked_profit, current_lots, scale_number, max_lots).at_most(
            Double::ratio(1, 10),
        ),
        Double::of_integer(0).at_most(max_lots.difference(current_lots)) ==> scale_lots(
            locked_profit,
            current_lots,
            scale_number,
            max_lots,
        ).at_most(max_lots.difference(current_lots)),
{
    double::lemma_integer_is_finite(0);
    double::lemma_ratio_is_defined(1, 10);
}

/// Without locked profit, or with all scale-ins used, there is nothing to scale with.
pub proof fn law_scale_needs_locked_profit(
    locked_profit: Double,
    current_lots: Double,
    scale_number: u8,
    max_lots: Double,
)
    requires
        locked_profit.below(Double::of_integer(1)) || scale_number >= MAX_SCALES,
    ensures
        scale_lots(locked_profit, current_lots, scale_number, max_lots) == Double::of_integer(0),
{
}

} // verus!
