//! Strategy signals, with fallbacks for when the strategy is away.
use vstd::prelude::*;
use crate::double::Double;

pub mod fallback;
pub mod laws;

verus! {

/// Momentum signal from the strategy.
#[derive(Debug, Clone, Copy)]
pub struct MomentumSignal {
    pub detected: bool,
    /// 1 = long, -1 = short, 0 = none.
    pub direction: i8,
    /// Zero to one.
    pub strength: Double,
    /// Pips per second.
    pub velocity: Double,
    /// Velocity change.
    pub acceleration: Double,
    pub quality: Option<ImpulseQuality>,
    pub ema_slope: Double,
    pub volume_surge: bool,
}

#[derive(Debug, Clone, Copy)]
pub struct ImpulseQuality {
    pub body_ratio: Double,
    pub close_pct: Double,
    pub range: Double,
}

/// Mean reversion signal from the strategy.
#[derive(Debug, Clone, Copy)]
pub struct ReversionSignal {
    pub detected: bool,
    /// 1 = buy (bounce from bottom), -1 = sell (bounce from top).
    pub direction: i8,
    pub z_score: Double,
    pub strength: Double,
    pub mean: Double,
    pub std: Double,
}

/// Trade qualification result from the strategy.
#[derive(Debug, Clone)]
pub struct QualificationResult {
    pub qualified: bool,
    pub rejection_reason: Option<String>,
    pub suggested_lots: Double,
    pub confidence: Double,
}

/// Volatility regime from the strategy.
#[derive(Debug, Clone, Copy, PartialEq, Eq, Structural)]
pub enum VolatilityRegime {
    Low,
    Normal,
    High,
    Extreme,
}

impl MomentumSignal {
    /// The signal that says nothing was found.
    pub open spec fn silent() -> MomentumSignal {
        MomentumSignal {
            detected: false,
            direction: 0,
            strength: Double::of_integer(0),
            velocity: Double::of_integer(0),
            acceleration: Double::of_integer(0),
            quality: None,
            ema_slope: Double::of_integer(0),
            volume_surge: false,
        }
    }
}

impl Default for MomentumSignal {
    fn default() -> (r: MomentumSignal)
        ensures
            r == MomentumSignal::silent(),
    {
        let zero: Double = Double::from_u64(0);
        MomentumSignal {
            detected: false,
            direction: 0,
            strength: zero,
            velocity: zero,
            acceleration: zero,
            quality: None,
            ema_slope: zero,
            volume_surge: false,
        }
    }
}

impl Default for ImpulseQuality {
    fn default() -> (r: ImpulseQuality)
        ensures
            r.body_ratio == Double::of_integer(0),
            r.close_pct == Double::of_integer(0),
            r.range == Double::of_integer(0),
    {
        let zero: Double = Double::from_u64(0);
        ImpulseQuality { body_ratio: zero, close_pct: zero, range: zero }
    }
}

impl Default for ReversionSignal {
    fn default() -> (r: ReversionSignal)
        ensures
            !r.detected,
            r.direction == 0,
            r.z_score == Double::of_integer(0),
            r.strength == Double::of_integer(0),
            r.mean == Double::of_integer(0),
            r.std == Double::of_integer(0),
    {
        let zero: Double = Double::from_u64(0);
        ReversionSignal {
            detected: false,
            direction: 0,
            z_score: zero,
            strength: zero,
            mean: zero,
            std: zero,
        }
    }
}

} // verus!
