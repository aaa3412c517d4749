use fx_scalp_core::risk_enforcer::{Account, RiskEnforcer, RiskVeto, TradingRun};
use fx_scalp_core::symbol_map::SymbolMap;
use fx_scalp_core::{AppConfig, Double, SymbolOverride};

fn d(x: f64) -> Double {
    Double::from_bits(x.to_bits())
}

fn f(x: Double) -> f64 {
    f64::from_bits(x.to_bits())
}

fn default_config() -> AppConfig {
    AppConfig::default()
}

fn test_run() -> TradingRun {
    TradingRun::new("EURUSD".to_string(), d(1.0), d(0.01), 0, d(5.0), d(10.0))
}

fn calm_account() -> Account {
    Account {
        balance: d(10000.0),
        equity: d(10000.0),
        daily_pnl: d(0.0),
        open_positions: 0,
        current_spread: d(1.0),
        avg_spread: d(1.0),
        current_latency_ms: 10,
    }
}

#[test]
fn test_initial_lot_calculation() {
    let mut config = AppConfig::default();
    config.account.lot_per_1000 = d(0.01);
    config.account.max_position_lots = d(0.1);
    let enforcer = RiskEnforcer::new(&config);

    // $1,000 account = 0.01 lots
    assert!((f(enforcer.calculate_initial_lots(d(1000.0))) - 0.01).abs() < 0.0001);

    // $10,000 account = 0.1 lots (capped at max)
    assert!((f(enforcer.calculate_initial_lots(d(10000.0))) - 0.1).abs() < 0.0001);

    // $100,000 account = still 0.1 lots (max)
    assert!((f(enforcer.calculate_initial_lots(d(100000.0))) - 0.1).abs() < 0.0001);
}

#[test]
fn test_reversal_detection() {
    let enforcer = RiskEnforcer::new(&default_config());

    let mut run = TradingRun::new("EURUSD".to_string(), d(1.0), d(0.01), 0, d(5.0), d(10.0));
    run.locked_profit = d(10.0);
    run.peak_profit = d(100.0);
    run.unrealized_pnl = d(75.0); // Total P&L = 85, drawdown = 15%

    assert!(!enforcer.check_reversal(&run, d(10000.0)));

    run.unrealized_pnl = d(55.0); // Total P&L = 65, drawdown = 35%
    assert!(enforcer.check_reversal(&run, d(10000.0)));
}

#[test]
fn test_scale_blocked_without_locked_profit() {
    let enforcer = RiskEnforcer::new(&default_config());

    let run = TradingRun::new("EURUSD".to_string(), d(1.0), d(0.01), 0, d(5.0), d(10.0));
    // No locked profit = cannot scale
    assert_eq!(enforcer.can_scale(&run), Err(RiskVeto::InsufficientLockedProfit));
}

#[test]
fn test_max_scales_enforced() {
    let enforcer = RiskEnforcer::new(&default_config());

    let mut run = TradingRun::new("EURUSD".to_string(), d(1.0), d(0.01), 0, d(5.0), d(10.0));
    run.locked_profit = d(100.0);
    run.scale_count = 3; // Already at max

    assert_eq!(enforcer.can_scale(&run), Err(RiskVeto::MaxScalesReached));
}

#[test]
fn test_symbol_overrides() {
    let mut config = AppConfig::default();
    let mut overrides = SymbolMap::new();
    overrides.insert(
        "BTCUSDm".to_string(),
        SymbolOverride {
            max_spread_multiplier: Some(d(10.0)),
            max_spread_pips: Some(d(80.0)),
            max_latency_ms: Some(200),
            max_slippage_pips: Some(d(50.0)),
            stall_timeout_ms: Some(60000),
        },
    );
    config.overrides = Some(overrides);

    let enforcer = RiskEnforcer::new(&config);

    assert_eq!(enforcer.get_max_latency_ms("BTCUSDm"), 200);
    assert_eq!(enforcer.get_max_latency_ms("EURUSDm"), 50); // Default

    assert_eq!(enforcer.get_stall_timeout_ms("BTCUSDm"), 60000);
    assert_eq!(enforcer.get_stall_timeout_ms("EURUSDm"), 15000); // Default

    assert_eq!(f(enforcer.get_max_spread_multiplier("BTCUSDm")), 10.0);
    assert_eq!(f(enforcer.get_max_spread_multiplier("EURUSDm")), 1.5);
    assert_eq!(f(enforcer.get_max_spread_pips("BTCUSDm")), 80.0);
    assert_eq!(f(enforcer.get_max_spread_pips("EURUSDm")), 2.0);
}

#[test]
fn partial_override_leaves_the_other_limits() {
    let mut config = AppConfig::default();
    let mut overrides = SymbolMap::new();
    overrides.insert(
        "GBPUSD".to_string(),
        SymbolOverride { max_latency_ms: Some(75), ..SymbolOverride::default() },
    );
    config.overrides = Some(overrides);
    let enforcer = RiskEnforcer::new(&config).clone();
    assert_eq!(enforcer.get_max_latency_ms("GBPUSD"), 75);
    assert_eq!(enforcer.get_stall_timeout_ms("GBPUSD"), 15000);
    assert_eq!(f(enforcer.get_max_spread_pips("GBPUSD")), 2.0);
}

#[test]
fn defaults_are_conservative() {
    let config = AppConfig::default();
    assert_eq!(config.market.symbols, vec!["EURUSD".to_string()]);
    assert_eq!(f(config.account.daily_loss_limit_pct), 0.02);
    assert_eq!(config.account.max_parallel_trades, 1);
    assert_eq!(config.account.max_trades_per_symbol, 1);
    assert_eq!(f(config.account.max_position_lots), 0.1);
    assert_eq!(f(config.account.lot_per_1000), 0.01);
    assert_eq!(f(config.account.risk_per_trade_pct), 0.005);
    assert_eq!(config.scaling.max_scales, 3);
    assert_eq!(f(config.scaling.min_scale_profit), 1.0);
    assert_eq!(f(config.scaling.max_scale_lots), 0.1);
    assert_eq!(f(config.scaling.profit_scale_ratio), 0.5);
    assert_eq!(f(config.exit.reversal_threshold_pct), 0.30);
    assert_eq!(config.exit.stall_timeout_ms, 15000);
    assert_eq!(config.exit.cooldown_seconds, 30);
    assert_eq!(f(config.execution.max_spread_multiplier), 1.5);
    assert_eq!(f(config.execution.max_spread_pips), 2.0);
    assert_eq!(config.execution.max_latency_ms, 50);
    assert_eq!(f(config.execution.max_slippage_pips), 1.0);
    assert!(config.overrides.is_none());
}

#[test]
fn entry_is_vetoed_for_each_reason() {
    let mut enforcer = RiskEnforcer::new(&default_config());
    enforcer.update_daily_limit(d(10000.0));
    assert_eq!(enforcer.can_enter("EURUSD", &calm_account(), 0), Ok(()));

    let mut account = calm_account();
    account.daily_pnl = d(-200.01);
    assert_eq!(enforcer.can_enter("EURUSD", &account, 0), Err(RiskVeto::DailyLimitHit));
    account.daily_pnl = d(-200.0);
    assert_eq!(enforcer.can_enter("EURUSD", &account, 0), Ok(()));

    let mut account = calm_account();
    account.open_positions = 1;
    assert_eq!(
        enforcer.can_enter("EURUSD", &account, 0),
        Err(RiskVeto::MaxParallelTradesReached)
    );
    assert_eq!(
        enforcer.can_enter("EURUSD", &calm_account(), 1),
        Err(RiskVeto::MaxTradesPerSymbolReached)
    );

    let mut account = calm_account();
    account.current_spread = d(1.6);
    assert_eq!(enforcer.can_enter("EURUSD", &account, 0), Err(RiskVeto::SpreadTooWide));
    account.avg_spread = d(2.0);
    assert_eq!(enforcer.can_enter("EURUSD", &account, 0), Ok(()));
    account.current_spread = d(2.1);
    assert_eq!(enforcer.can_enter("EURUSD", &account, 0), Err(RiskVeto::SpreadTooWide));

    let mut account = calm_account();
    account.current_latency_ms = 51;
    assert_eq!(enforcer.can_enter("EURUSD", &account, 0), Err(RiskVeto::LatencyTooHigh));
}

#[test]
fn vetoes_have_their_texts() {
    assert_eq!(RiskVeto::DailyLimitHit.describe(), "Daily loss limit reached");
    assert_eq!(RiskVeto::MaxParallelTradesReached.describe(), "Maximum parallel trades reached");
    assert_eq!(
        RiskVeto::MaxTradesPerSymbolReached.describe(),
        "Maximum trades for this symbol reached"
    );
    assert_eq!(RiskVeto::MaxScalesReached.describe(), "Maximum scale-ins reached (3)");
    assert_eq!(
        RiskVeto::InsufficientLockedProfit.describe(),
        "Not enough locked profit to scale"
    );
    assert_eq!(RiskVeto::LotSizeExceeded.describe(), "Lot size exceeds maximum");
    assert_eq!(RiskVeto::SpreadTooWide.describe(), "Spread exceeds 1.5x average");
    assert_eq!(RiskVeto::LatencyTooHigh.describe(), "Network latency too high");
    assert_eq!(RiskVeto::KillSwitchActive.describe(), "Kill switch is active");
    assert_eq!(RiskVeto::ReversalDetected.describe(), "Momentum reversal detected");
    assert_eq!(RiskVeto::StallTimeout.describe(), "Price stalled - timeout");
}

#[test]
fn lots_are_in_proportion_up_to_the_maximum() {
    let enforcer = RiskEnforcer::new(&default_config());
    assert!((f(enforcer.calculate_initial_lots(d(5.0))) - 0.00005).abs() < 1e-9);
    assert_eq!(f(enforcer.calculate_initial_lots(d(0.0))), 0.0);
    assert_eq!(f(enforcer.calculate_initial_lots(d(3499.0))), 3499.0 / 1000.0 * 0.01);
    assert_eq!(f(enforcer.calculate_initial_lots(d(3500.0))), 3500.0 / 1000.0 * 0.01);
    assert_eq!(f(enforcer.calculate_initial_lots(d(f64::NAN))), 0.1);
    let mut previous = 0.0;
    for balance in 0..200 {
        let lots = f(enforcer.calculate_initial_lots(d(balance as f64 * 100.0)));
        assert!(lots >= previous && lots <= 0.1);
        previous = lots;
    }
}

#[test]
fn risk_based_lots_follow_the_formula() {
    let mut config = default_config();
    config.account.max_position_lots = d(10.0);
    let enforcer = RiskEnforcer::new(&config);
    // 10000 * 0.005 = 50 at risk; a pip is worth 1.0 * 0.0001 / 0.00001 = 10
    let lots = enforcer.calculate_risk_based_lots(d(10000.0), d(20.0), d(1.0), d(0.00001), 5);
    assert_eq!(f(lots), 0.25);
    let lots = enforcer.calculate_risk_based_lots(d(10000.0), d(20.0), d(1.0), d(0.001), 3);
    assert_eq!(f(lots), 0.25);
    let lots = enforcer.calculate_risk_based_lots(d(10000.0), d(50.0), d(1.0), d(0.01), 2);
    assert_eq!(f(lots), 0.01);
    // Without a stop, and without a pip value, the balance decides
    let lots = enforcer.calculate_risk_based_lots(d(10000.0), d(0.0), d(1.0), d(0.00001), 5);
    assert_eq!(f(lots), 0.1);
    let lots = enforcer.calculate_risk_based_lots(d(10000.0), d(20.0), d(0.0), d(0.00001), 5);
    assert_eq!(f(lots), 0.1);
    // Risk-based sizes come in hundredths of a lot, one at least
    let lots = enforcer.calculate_risk_based_lots(d(5.0), d(20.0), d(1.0), d(0.00001), 5);
    assert_eq!(f(lots), 0.01);
    // A missing point size counts as a millionth
    let lots = enforcer.calculate_risk_based_lots(d(10000.0), d(20.0), d(1.0), d(0.0), 5);
    assert_eq!(f(lots), ((10000.0 * 0.005) / (20.0 * (0.0001 / 0.000001)) * 100.0f64).round() / 100.0);
}

#[test]
fn scaling_uses_locked_profit_only() {
    let enforcer = RiskEnforcer::new(&default_config());
    let mut run = test_run();
    run.locked_profit = d(10.0);
    let lots = enforcer.can_scale(&run).unwrap();
    assert_eq!(f(lots), 10.0 * 0.5 * 0.001 * 0.3);
    run.unrealized_pnl = d(5000.0);
    run.peak_profit = d(6000.0);
    assert_eq!(enforcer.can_scale(&run), Ok(lots));
    run.scale_count = 1;
    assert_eq!(f(enforcer.can_scale(&run).unwrap()), 10.0 * 0.5 * 0.001 * 0.4);
    run.scale_count = 2;
    assert_eq!(f(enforcer.can_scale(&run).unwrap()), 10.0 * 0.5 * 0.001 * 0.5);
    // No more than the position may still grow by
    run.current_lots = d(0.099);
    assert_eq!(f(enforcer.can_scale(&run).unwrap()), (0.1f64 - 0.099).min(10.0 * 0.5 * 0.001 * 0.5));
}

#[test]
fn scaling_follows_locked_profit() {
    let enforcer = RiskEnforcer::new(&default_config());
    let mut run = test_run();
    let mut previous = 0.0;
    for locked in 2..300 {
        run.locked_profit = d(locked as f64 * 1.7);
        let lots = f(enforcer.can_scale(&run).unwrap());
        assert!(lots >= previous && lots <= 0.1 - 0.01);
        previous = lots;
    }
}

#[test]
fn scale_factor_ends_after_the_third() {
    let mut config = default_config();
    config.scaling.max_scales = 9;
    let enforcer = RiskEnforcer::new(&config);
    let mut run = test_run();
    run.locked_profit = d(1000.0);
    run.scale_count = 3;
    assert_eq!(f(enforcer.can_scale(&run).unwrap()), 0.0);
}

#[test]
fn reversal_needs_a_peak_and_a_profit() {
    let enforcer = RiskEnforcer::new(&default_config());
    let mut run = test_run();
    assert!(!enforcer.check_reversal(&run, d(10000.0)));
    run.peak_profit = d(100.0);
    run.unrealized_pnl = d(-5.0);
    assert!(!enforcer.check_reversal(&run, d(10000.0)));
    run.unrealized_pnl = d(50.0);
    assert!(enforcer.check_reversal(&run, d(10000.0)));
    // A peak of less than three pips
    run.current_lots = d(1e9);
    assert!(!enforcer.check_reversal(&run, d(1.0)));
}

#[test]
fn stall_is_longer_than_the_timeout() {
    let enforcer = RiskEnforcer::new(&default_config());
    let mut run = test_run();
    run.last_price_change_ms = 1000;
    assert!(!enforcer.check_stall(&run, 1000));
    assert!(!enforcer.check_stall(&run, 16000));
    assert!(enforcer.check_stall(&run, 16001));
}

#[test]
fn lot_size_is_validated() {
    let enforcer = RiskEnforcer::new(&default_config());
    assert_eq!(enforcer.validate_lot_size(d(0.1)), Ok(()));
    assert_eq!(enforcer.validate_lot_size(d(0.11)), Err(RiskVeto::LotSizeExceeded));
}

#[test]
fn run_follows_the_price() {
    let mut run = test_run();
    run.update_price(d(1.1), d(12.0), 500);
    assert_eq!(f(run.total_pnl()), 12.0);
    assert_eq!(f(run.peak_profit), 12.0);
    assert_eq!(run.last_price_change_ms, 500);
    run.update_price(d(1.1), d(12.000001), 700);
    assert_eq!(run.last_price_change_ms, 500);
    run.update_price(d(1.05), d(4.0), 900);
    assert_eq!(f(run.peak_profit), 12.000001);
    assert_eq!(run.last_price_change_ms, 900);
    run.locked_profit = d(20.0);
    run.update_peak();
    assert_eq!(f(run.peak_profit), 24.0);
    assert_eq!(f(run.clone().total_pnl()), 24.0);
}
