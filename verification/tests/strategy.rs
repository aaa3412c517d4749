use fx_scalp_core::python_bridge::fallback::{
    calculate_scale_lots, detect_momentum_simple, get_volatility_regime, qualify_trade_simple,
};
use fx_scalp_core::python_bridge::ImpulseQuality;
use fx_scalp_core::{Double, MomentumSignal, ReversionSignal, VolatilityRegime};

fn d(x: f64) -> Double {
    Double::from_bits(x.to_bits())
}

fn f(x: Double) -> f64 {
    f64::from_bits(x.to_bits())
}

fn strong_signal() -> MomentumSignal {
    MomentumSignal {
        detected: true,
        direction: 1,
        strength: d(0.8),
        velocity: d(5.0),
        acceleration: d(1.0),
        quality: None,
        ema_slope: d(0.0),
        volume_surge: true,
    }
}

#[test]
fn test_momentum_detection_up() {
    // Create an ACCELERATING price sequence
    let mut prices = Vec::new();
    for i in 0..50 {
        let p = 1.08500 + (i as f64 * 0.0001) + (i as f64 * i as f64 * 0.000001);
        prices.push(d(p));
    }
    let signal = detect_momentum_simple(&prices, 50);

    assert!(signal.detected);
    assert_eq!(signal.direction, 1); // Long
    assert!(f(signal.velocity) > 0.0);
    assert!(f(signal.acceleration) > 0.0);
}

#[test]
fn test_momentum_detection_down() {
    // Create an ACCELERATING price sequence (downwards)
    let mut prices = Vec::new();
    for i in 0..50 {
        let p = 1.08500 - (i as f64 * 0.0001) - (i as f64 * i as f64 * 0.000001);
        prices.push(d(p));
    }
    let signal = detect_momentum_simple(&prices, 50);

    assert!(signal.detected);
    assert_eq!(signal.direction, -1); // Short
    assert!(f(signal.velocity) < 0.0);
    assert!(f(signal.acceleration) < 0.0);
}

#[test]
fn test_qualification_spread_reject() {
    let momentum = strong_signal();

    let result = qualify_trade_simple(&momentum, d(3.0), d(1.0), 10);
    assert!(!result.qualified);
    assert_eq!(result.rejection_reason, Some("spread_too_wide".to_string()));
}

#[test]
fn test_scale_calculation() {
    // No locked profit = no scale
    assert_eq!(calculate_scale_lots(d(0.5), d(0.01), 0, d(0.1)), d(0.0));

    // First scale with $10 locked
    let lots = calculate_scale_lots(d(10.0), d(0.01), 0, d(0.1));
    assert!(f(lots) > 0.0);

    // Max scales reached
    assert_eq!(calculate_scale_lots(d(100.0), d(0.05), 3, d(0.1)), d(0.0));
}

#[test]
fn momentum_is_computed_from_the_last_window() {
    let prices = [9.0, 1.0, 1.5, 1.25, 2.0].map(d);
    let signal = detect_momentum_simple(&prices, 4);
    assert_eq!(f(signal.velocity), 1.0 * 10000.0 / (4.0 / 10.0));
    assert_eq!(f(signal.acceleration), ((2.0 - 1.25) - (1.25 - 1.0)) * 10000.0);
    assert_eq!(f(signal.strength), 1.0);
    assert!(signal.detected);
    assert_eq!(signal.direction, 1);
    assert!(signal.quality.is_none());
    assert!(!signal.volume_surge);
}

#[test]
fn too_few_prices_say_nothing() {
    let signal = detect_momentum_simple(&[d(1.0), d(2.0)], 3);
    assert!(!signal.detected);
    assert_eq!(signal.direction, 0);
    assert_eq!(f(signal.strength), 0.0);
    assert_eq!(f(signal.velocity), 0.0);
}

#[test]
fn slowing_or_flat_prices_are_not_detected() {
    // The second half moves less than the first
    let signal = detect_momentum_simple(&[d(1.0), d(1.4), d(1.5)], 3);
    assert!(!signal.detected);
    assert_eq!(signal.direction, 1);
    let signal = detect_momentum_simple(&[d(1.0), d(1.0), d(1.0)], 3);
    assert!(!signal.detected);
    assert_eq!(signal.direction, 0);
    // A window of one price
    let signal = detect_momentum_simple(&[d(1.0)], 1);
    assert!(!signal.detected);
    // Below half a pip per second
    let signal = detect_momentum_simple(&[d(1.0), d(1.0), d(1.00001)], 3);
    assert!(!signal.detected);
    assert!(f(signal.strength) >= 0.0 && f(signal.strength) <= 1.0);
}

#[test]
fn qualification_names_its_objection() {
    let result = qualify_trade_simple(&strong_signal(), d(1.5), d(1.0), 50);
    assert!(result.qualified);
    assert_eq!(result.rejection_reason, None);
    assert_eq!(f(result.suggested_lots), 0.01);
    assert_eq!(f(result.confidence), 0.8);

    let result = qualify_trade_simple(&strong_signal(), d(1.0), d(1.0), 51);
    assert_eq!(result.rejection_reason, Some("latency_too_high".to_string()));
    assert_eq!(f(result.suggested_lots), 0.0);
    assert_eq!(f(result.confidence), 0.0);

    let mut weak = strong_signal();
    weak.strength = d(0.29);
    let result = qualify_trade_simple(&weak, d(1.0), d(1.0), 10);
    assert_eq!(result.rejection_reason, Some("momentum_too_weak".to_string()));
    let mut absent = strong_signal();
    absent.detected = false;
    let result = qualify_trade_simple(&absent, d(1.0), d(1.0), 10);
    assert_eq!(result.rejection_reason, Some("momentum_too_weak".to_string()));
}

#[test]
fn regimes_have_their_bounds() {
    assert_eq!(get_volatility_regime(d(50.1)), VolatilityRegime::Extreme);
    assert_eq!(get_volatility_regime(d(50.0)), VolatilityRegime::High);
    assert_eq!(get_volatility_regime(d(30.0)), VolatilityRegime::Normal);
    assert_eq!(get_volatility_regime(d(5.0)), VolatilityRegime::Normal);
    assert_eq!(get_volatility_regime(d(4.9)), VolatilityRegime::Low);
}

#[test]
fn scale_lots_follow_the_formula() {
    assert_eq!(f(calculate_scale_lots(d(10.0), d(0.01), 0, d(1.0))), 10.0 * 0.5 * 0.001 * 0.3);
    assert_eq!(f(calculate_scale_lots(d(10.0), d(0.01), 1, d(1.0))), 10.0 * 0.5 * 0.001 * 0.4);
    assert_eq!(f(calculate_scale_lots(d(10.0), d(0.01), 2, d(1.0))), 10.0 * 0.5 * 0.001 * 0.5);
    // At most a tenth of a lot, within the room left, and never negative
    assert_eq!(f(calculate_scale_lots(d(1e6), d(0.01), 0, d(1.0))), 0.1);
    assert_eq!(f(calculate_scale_lots(d(1e6), d(0.75), 0, d(0.8125))), 0.0625);
    assert_eq!(f(calculate_scale_lots(d(1e6), d(0.5), 0, d(0.25))), 0.0);
}

#[test]
fn default_signals_are_silent() {
    let momentum = MomentumSignal::default();
    assert!(!momentum.detected);
    assert_eq!(momentum.direction, 0);
    assert_eq!(f(momentum.strength), 0.0);
    let reversion = ReversionSignal::default();
    assert!(!reversion.detected);
    assert_eq!(reversion.direction, 0);
    assert_eq!(f(reversion.z_score), 0.0);
    let quality = ImpulseQuality::default();
    assert_eq!(f(quality.body_ratio), 0.0);
    assert_eq!(f(quality.range), 0.0);
}
