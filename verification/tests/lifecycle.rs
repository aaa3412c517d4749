use fx_scalp_core::kill_switch::KillReason;
use fx_scalp_core::state_machine::wording::{word_event, word_state};
use fx_scalp_core::state_machine::{SignalType, TradingState, TransitionError};
use fx_scalp_core::symbol_map::SymbolMap;
use fx_scalp_core::{
    AccountConfig, ActiveTrade, AppConfig, AppState, Direction, Double, ExecutionConfig, ExitConfig,
    ExitReason, KillSwitch, MarketConfig, OrderExecutor, ScalingConfig, StateEvent, Tick,
    TradingStateMachine,
};
use std::sync::{Arc, RwLock};

fn d(x: f64) -> Double {
    Double::from_bits(x.to_bits())
}

fn f(x: Double) -> f64 {
    f64::from_bits(x.to_bits())
}

#[test]
fn test_trade_lifecycle() {
    // 1. Setup config
    let config = AppConfig {
        market: MarketConfig { symbols: vec!["EURUSD".to_string()] },
        account: AccountConfig {
            daily_loss_limit_pct: d(0.05),
            max_parallel_trades: 1,
            max_trades_per_symbol: 1,
            max_position_lots: d(1.0),
            lot_per_1000: d(0.1),
            risk_per_trade_pct: d(0.01),
        },
        scaling: ScalingConfig {
            max_scales: 0,
            min_scale_profit: d(0.0),
            max_scale_lots: d(0.0),
            profit_scale_ratio: d(0.0),
        },
        exit: ExitConfig {
            reversal_threshold_pct: d(0.3),
            stall_timeout_ms: 5000,
            cooldown_seconds: 0,
        },
        execution: ExecutionConfig {
            max_spread_multiplier: d(2.0),
            max_spread_pips: d(2.0),
            max_latency_ms: 100,
            max_slippage_pips: d(1.0),
        },
        overrides: None,
    };

    let app_state = Arc::new(RwLock::new(AppState::new(config, d(10000.0))));

    // 3. Push initial ticks
    {
        let mut state = app_state.write().unwrap();
        let tick1 = Tick {
            symbol: "EURUSD".to_string(),
            bid: d(1.10000),
            ask: d(1.10010),
            bid_volume: d(1.0),
            ask_volume: d(1.0),
            timestamp_ms: 1000,
            received_at_ms: 1000,
            digits: 5,
            point: d(0.00001),
            tick_value: d(1.0),
        };
        let _ = state.tick_ingestion.process_tick(tick1);
    }

    // 4. Manually spawn a trade
    let trade_id = {
        let mut state = app_state.write().unwrap();
        state.trade_id_counter += 1;
        let id = state.trade_id_counter;
        let mut trade = ActiveTrade::new(id, "EURUSD".to_string());
        let _ = trade
            .state_machine
            .process_event(StateEvent::MomentumDetected("EURUSD".to_string(), Direction::Long));
        state.active_trades.push(trade);
        id
    };
    assert_eq!(trade_id, 1);

    // Verify State
    {
        let state = app_state.read().unwrap();
        assert_eq!(state.active_trades.len(), 1);
        if let TradingState::Qualifying { momentum_direction, .. } =
            state.active_trades[0].state_machine.current_state().clone()
        {
            assert_eq!(momentum_direction, Direction::Long);
        } else {
            panic!("Expected Qualifying state");
        }
    }

    // 5. Force Filters Pass
    {
        let mut state = app_state.write().unwrap();
        let trade = &mut state.active_trades[0];
        let _ = trade
            .state_machine
            .process_event(StateEvent::FiltersPass { lots: d(0.1), sl_pips: d(10.0) });
    }

    // 6. Force Order Filled
    {
        let mut state = app_state.write().unwrap();
        let trade = &mut state.active_trades[0];
        let _ = trade
            .state_machine
            .process_event(StateEvent::OrderFilled { price: d(1.10010), ticket: 12345 });
    }

    // Verify Position Open
    {
        let state = app_state.read().unwrap();
        if let TradingState::PositionOpen { current_lots, entry_price, .. } =
            state.active_trades[0].state_machine.current_state().clone()
        {
            assert_eq!(f(current_lots), 0.1);
            assert_eq!(f(entry_price), 1.10010);
        } else {
            panic!("Expected PositionOpen state");
        }
    }

    // 7. Simulate tick movement for Profit
    {
        let mut state = app_state.write().unwrap();
        let tick2 = Tick {
            symbol: "EURUSD".to_string(),
            bid: d(1.10210),
            ask: d(1.10220),
            bid_volume: d(1.0),
            ask_volume: d(1.0),
            timestamp_ms: 2000,
            received_at_ms: 2000,
            digits: 5,
            point: d(0.00001),
            tick_value: d(1.0),
        };
        let _ = state.tick_ingestion.process_tick(tick2);
    }

    // 8. Reversal
    {
        let mut state = app_state.write().unwrap();
        let trade = &mut state.active_trades[0];
        let _ = trade.state_machine.process_event(StateEvent::ReversalDetected);
    }

    // Verify Exiting
    {
        let state = app_state.read().unwrap();
        match state.active_trades[0].state_machine.current_state() {
            TradingState::Exiting { .. } => {}
            _ => panic!("Expected Exiting state"),
        }
    }

    // 9. Force Position Closed
    {
        let mut state = app_state.write().unwrap();
        let trade = &mut state.active_trades[0];
        let _ = trade.state_machine.process_event(StateEvent::PositionClosed);
    }

    // Verify Cooldown/Idle
    {
        let state = app_state.read().unwrap();
        match state.active_trades[0].state_machine.current_state() {
            TradingState::Cooldown { .. } => {}
            _ => panic!("Expected Cooldown state"),
        }
    }
}

/// Tests that the capacity limits work properly when pushing trades to state
#[test]
fn test_capacity_limits() {
    let mut config = AppConfig::default();
    config.account.max_parallel_trades = 2;
    config.account.max_trades_per_symbol = 1;
    config.market.symbols = vec!["EURUSD".to_string(), "GBPUSD".to_string()];

    let state = AppState::new(config, d(10000.0));

    // Count active trades per symbol manually as logic mimicking scanner
    let mut counts = std::collections::HashMap::new();
    for t in &state.active_trades {
        *counts.entry(t.symbol.clone()).or_insert(0) += 1;
    }

    let global_count = state.active_trades.len() as u32;
    // Initial State
    assert_eq!(global_count, 0);
    assert!(global_count < state.config.account.max_parallel_trades);
}

fn qualifying(now: u64) -> TradingStateMachine {
    let mut machine = TradingStateMachine::new();
    machine
        .process_event_at(
            StateEvent::ReversionDetected("GBPUSD".to_string(), Direction::Short),
            now,
        )
        .unwrap();
    machine
}

fn open(now: u64) -> TradingStateMachine {
    let mut machine = qualifying(now);
    machine
        .process_event_at(StateEvent::FiltersPass { lots: d(0.5), sl_pips: d(30.0) }, now)
        .unwrap();
    machine
        .process_event_at(StateEvent::OrderFilled { price: d(1.25), ticket: 7 }, now)
        .unwrap();
    machine
}

#[test]
fn states_carry_the_trade() {
    let mut machine = TradingStateMachine::default();
    assert_eq!(machine.current_state(), TradingState::Idle);
    assert_eq!(machine.current_direction(), None);
    machine = qualifying(100);
    assert_eq!(
        machine.current_state(),
        TradingState::Qualifying {
            symbol: "GBPUSD".to_string(),
            started_at_ms: 100,
            momentum_direction: Direction::Short,
            signal_type: SignalType::Reversion,
        }
    );
    machine
        .process_event_at(StateEvent::FiltersPass { lots: d(0.5), sl_pips: d(30.0) }, 200)
        .unwrap();
    assert_eq!(
        machine.current_state(),
        TradingState::EntryReady {
            symbol: "GBPUSD".to_string(),
            direction: Direction::Short,
            calculated_lots: d(0.5),
            sl_pips: d(30.0),
            timeout_at_ms: 5200,
        }
    );
    machine
        .process_event_at(StateEvent::OrderFilled { price: d(1.25), ticket: 7 }, 300)
        .unwrap();
    assert_eq!(
        machine.current_state(),
        TradingState::PositionOpen {
            symbol: "GBPUSD".to_string(),
            direction: Direction::Short,
            entry_price: d(1.25),
            current_lots: d(0.5),
            sl_pips: d(30.0),
            tp_pips: d(60.0),
            entry_time_ms: 300,
            ticket: 7,
        }
    );
    assert_eq!(machine.current_direction(), Some(Direction::Short));
}

#[test]
fn position_scales_and_exits() {
    let mut machine = open(300);
    machine
        .process_event_at(StateEvent::ProfitLocked { amount: d(3.0) }, 310)
        .unwrap();
    machine.process_event_at(StateEvent::MomentumContinues, 320).unwrap();
    assert!(matches!(machine.current_state(), TradingState::Scaling { started_at_ms: 320, .. }));
    machine
        .process_event_at(StateEvent::ScaleComplete { new_lots: d(0.25) }, 330)
        .unwrap();
    match machine.current_state() {
        TradingState::PositionOpen { current_lots, entry_time_ms, tp_pips, ticket, .. } => {
            assert_eq!(f(current_lots), 0.75);
            assert_eq!(entry_time_ms, 330);
            assert_eq!(f(tp_pips), 60.0);
            assert_eq!(ticket, 7);
        }
        _ => panic!("Expected PositionOpen state"),
    }
    machine.process_event_at(StateEvent::MomentumContinues, 340).unwrap();
    machine.process_event_at(StateEvent::MaxScalesReached, 350).unwrap();
    assert_eq!(
        machine.current_state(),
        TradingState::Exiting {
            symbol: "GBPUSD".to_string(),
            direction: Direction::Short,
            reason: ExitReason::MomentumDecay,
            started_at_ms: 350,
            lots: d(0.75),
            ticket: 7,
        }
    );
}

#[test]
fn position_is_scaled_at_most_three_times() {
    let mut machine = open(300);
    for round in 0..3 {
        machine.process_event_at(StateEvent::MomentumContinues, 400 + round).unwrap();
        machine
            .process_event_at(StateEvent::ScaleComplete { new_lots: d(0.25) }, 410 + round)
            .unwrap();
    }
    let full = machine.current_state();
    assert!(matches!(full, TradingState::PositionOpen { .. }));
    assert_eq!(
        machine.process_event_at(StateEvent::MomentumContinues, 500),
        Err(TransitionError::Invalid {
            state: full.clone(),
            event: StateEvent::MomentumContinues,
        })
    );
    assert!(machine.process_event(StateEvent::MomentumContinues).is_err());
    assert_eq!(machine.current_state(), full);
    // The position still exits, and the next one starts afresh
    machine.process_event_at(StateEvent::StopLossHit, 600).unwrap();
    machine.process_event_at(StateEvent::PositionClosed, 600).unwrap();
    machine.process_event_at(StateEvent::CooldownComplete, 30600).unwrap();
    machine
        .process_event_at(
            StateEvent::MomentumDetected("EURUSD".to_string(), Direction::Long),
            30700,
        )
        .unwrap();
    machine
        .process_event_at(StateEvent::FiltersPass { lots: d(0.5), sl_pips: d(30.0) }, 30700)
        .unwrap();
    machine
        .process_event_at(StateEvent::OrderFilled { price: d(1.25), ticket: 8 }, 30700)
        .unwrap();
    assert!(machine.process_event_at(StateEvent::MomentumContinues, 30800).is_ok());
}

#[test]
fn refusals_have_their_texts() {
    assert_eq!(
        TransitionError::CooldownNotComplete { remaining_ms: 500 }.describe(),
        "Cooldown not complete, 500ms remaining"
    );
    let mut machine = TradingStateMachine::new();
    assert_eq!(
        machine.process_event(StateEvent::PositionClosed).unwrap_err().describe(),
        "Invalid transition: Idle -> PositionClosed"
    );
    assert_eq!(
        machine
            .process_event(StateEvent::FiltersPass { lots: d(0.01), sl_pips: d(30.0) })
            .unwrap_err()
            .describe(),
        "Invalid transition: Idle -> FiltersPass { lots: 0.01, sl_pips: 30.0 }"
    );
    assert_eq!(
        open(300)
            .process_event(StateEvent::MomentumDetected("a\"b\n".to_string(), Direction::Long))
            .unwrap_err()
            .describe(),
        "Invalid transition: PositionOpen { symbol: \"GBPUSD\", direction: Short, \
         entry_price: 1.25, current_lots: 0.5, sl_pips: 30.0, tp_pips: 60.0, \
         entry_time_ms: 300, ticket: 7 } -> MomentumDetected(\"a\\\"b\\n\", Long)"
    );
    assert_eq!(TransitionError::ClockOutOfRange.describe(), "Clock out of range");
}

#[test]
fn states_are_worded_with_their_fields() {
    let symbol = "EURUSD".to_string();
    for (state, text) in vec![
        (TradingState::Idle, "Idle"),
        (
            TradingState::Qualifying {
                symbol: symbol.clone(),
                started_at_ms: 5,
                momentum_direction: Direction::Long,
                signal_type: SignalType::Reversion,
            },
            "Qualifying { symbol: <S>, started_at_ms: 5, momentum_direction: Long, \
             signal_type: Reversion }",
        ),
        (
            TradingState::EntryReady {
                symbol: symbol.clone(),
                direction: Direction::Short,
                calculated_lots: d(0.1),
                sl_pips: d(f64::NAN),
                timeout_at_ms: 5000,
            },
            "EntryReady { symbol: <S>, direction: Short, calculated_lots: 0.1, sl_pips: NaN, \
             timeout_at_ms: 5000 }",
        ),
        (
            TradingState::Scaling {
                symbol: symbol.clone(),
                direction: Direction::Long,
                entry_price: d(1.1),
                current_lots: d(1e16),
                sl_pips: d(-0.0),
                tp_pips: d(1e-5),
                started_at_ms: 1,
                ticket: 2,
            },
            "Scaling { symbol: <S>, direction: Long, entry_price: 1.1, current_lots: 1e16, \
             sl_pips: -0.0, tp_pips: 1e-5, started_at_ms: 1, ticket: 2 }",
        ),
        (
            TradingState::Exiting {
                symbol: symbol.clone(),
                direction: Direction::Long,
                reason: ExitReason::SpreadExpansion,
                started_at_ms: 3,
                lots: d(123.456),
                ticket: u64::MAX,
            },
            "Exiting { symbol: <S>, direction: Long, reason: SpreadExpansion, \
             started_at_ms: 3, lots: 123.456, ticket: 18446744073709551615 }",
        ),
        (TradingState::Cooldown { until_ms: 9 }, "Cooldown { until_ms: 9 }"),
    ] {
        assert_eq!(word_state(&state, "<S>"), text);
    }
}

#[test]
fn events_are_worded_with_their_fields() {
    let symbol = "EURUSD".to_string();
    for (event, text) in vec![
        (
            StateEvent::ReversionDetected(symbol.clone(), Direction::Short),
            "ReversionDetected(<S>, Short)",
        ),
        (StateEvent::FiltersReject, "FiltersReject"),
        (
            StateEvent::OrderFilled { price: d(1.5), ticket: 1 },
            "OrderFilled { price: 1.5, ticket: 1 }",
        ),
        (StateEvent::OrderTimeout, "OrderTimeout"),
        (StateEvent::ProfitLocked { amount: d(f64::INFINITY) }, "ProfitLocked { amount: inf }"),
        (StateEvent::MomentumContinues, "MomentumContinues"),
        (StateEvent::ScaleComplete { new_lots: d(1.0) }, "ScaleComplete { new_lots: 1.0 }"),
        (StateEvent::MaxScalesReached, "MaxScalesReached"),
        (StateEvent::SpreadExpanded, "SpreadExpanded"),
        (StateEvent::CooldownComplete, "CooldownComplete"),
        (StateEvent::KillSwitchTriggered, "KillSwitchTriggered"),
    ] {
        assert_eq!(word_event(&event, "<S>"), text);
    }
}

#[test]
fn each_exit_has_its_reason() {
    let exits = vec![
        (StateEvent::TakeProfitHit, ExitReason::TakeProfitHit),
        (StateEvent::StopLossHit, ExitReason::StopLossHit),
        (StateEvent::MomentumDecay, ExitReason::MomentumDecay),
        (StateEvent::StallTimeout, ExitReason::StallTimeout),
        (StateEvent::ReversalDetected, ExitReason::ReversalDetected),
        (StateEvent::SpreadExpanded, ExitReason::SpreadExpansion),
    ];
    for (event, expected) in exits {
        let mut machine = open(300);
        machine.process_event_at(event, 400).unwrap();
        match machine.current_state() {
            TradingState::Exiting { reason, lots, .. } => {
                assert_eq!(reason, expected);
                assert_eq!(f(lots), 0.5);
            }
            _ => panic!("Expected Exiting state"),
        }
    }
}

#[test]
fn cooldown_is_mandatory() {
    let mut machine = open(300);
    machine.process_event_at(StateEvent::StopLossHit, 400).unwrap();
    machine.process_event_at(StateEvent::PositionClosed, 500).unwrap();
    assert_eq!(machine.current_state(), TradingState::Cooldown { until_ms: 30500 });
    assert_eq!(
        machine.process_event_at(StateEvent::CooldownComplete, 30000),
        Err(TransitionError::CooldownNotComplete { remaining_ms: 500 })
    );
    assert_eq!(
        machine.process_event_at(
            StateEvent::MomentumDetected("EURUSD".to_string(), Direction::Long),
            30001
        ),
        Err(TransitionError::Invalid {
            state: TradingState::Cooldown { until_ms: 30500 },
            event: StateEvent::MomentumDetected("EURUSD".to_string(), Direction::Long),
        })
    );
    machine.process_event_at(StateEvent::CooldownComplete, 30500).unwrap();
    assert_eq!(machine.current_state(), TradingState::Idle);
}

#[test]
fn filters_and_timeouts_end_a_trade() {
    let mut machine = qualifying(1);
    machine.process_event_at(StateEvent::FiltersReject, 2).unwrap();
    assert_eq!(machine.current_state(), TradingState::Idle);
    let mut machine = qualifying(1);
    machine
        .process_event_at(StateEvent::FiltersPass { lots: d(0.5), sl_pips: d(30.0) }, 2)
        .unwrap();
    machine.process_event_at(StateEvent::OrderTimeout, 3).unwrap();
    assert_eq!(machine.current_state(), TradingState::Idle);
}

#[test]
fn refused_event_changes_nothing() {
    let mut machine = TradingStateMachine::new();
    assert_eq!(
        machine.process_event_at(StateEvent::PositionClosed, 1),
        Err(TransitionError::Invalid {
            state: TradingState::Idle,
            event: StateEvent::PositionClosed,
        })
    );
    assert_eq!(machine.current_state(), TradingState::Idle);
    let mut machine = open(5);
    assert!(machine.process_event_at(StateEvent::FiltersReject, 6).is_err());
    assert!(matches!(machine.current_state(), TradingState::PositionOpen { .. }));
}

#[test]
fn deadline_beyond_the_clock_is_refused() {
    let mut machine = qualifying(1);
    assert_eq!(
        machine.process_event_at(
            StateEvent::FiltersPass { lots: d(0.5), sl_pips: d(30.0) },
            u64::MAX
        ),
        Err(TransitionError::ClockOutOfRange)
    );
    let mut machine = open(1);
    machine.process_event_at(StateEvent::StopLossHit, 2).unwrap();
    assert_eq!(
        machine.process_event_at(StateEvent::PositionClosed, u64::MAX - 29999),
        Err(TransitionError::ClockOutOfRange)
    );
    assert!(machine.process_event_at(StateEvent::PositionClosed, u64::MAX - 30000).is_ok());
}

#[test]
fn kill_switch_ends_every_trade() {
    let mut machine = TradingStateMachine::new();
    machine.process_event_at(StateEvent::KillSwitchTriggered, 1).unwrap();
    assert_eq!(machine.current_state(), TradingState::Idle);
    for mut machine in vec![qualifying(1), open(1)] {
        machine.process_event_at(StateEvent::KillSwitchTriggered, 9).unwrap();
        assert_eq!(
            machine.current_state(),
            TradingState::Exiting {
                symbol: "GBPUSD".to_string(),
                direction: Direction::Short,
                reason: ExitReason::KillSwitch,
                started_at_ms: 9,
                lots: d(0.0),
                ticket: 0,
            }
        );
    }
    let mut machine = TradingStateMachine::new();
    machine.transition_to(TradingState::Cooldown { until_ms: 77 });
    machine.process_event_at(StateEvent::KillSwitchTriggered, 1).unwrap();
    assert_eq!(machine.current_state(), TradingState::Idle);
}

#[test]
fn exits_have_their_texts() {
    for (reason, text) in [
        (ExitReason::TakeProfitHit, "Take profit hit"),
        (ExitReason::StopLossHit, "Stop loss hit"),
        (ExitReason::MomentumDecay, "Momentum decayed"),
        (ExitReason::StallTimeout, "Price stalled (timeout)"),
        (ExitReason::ReversalDetected, "Reversal detected (30% drawdown)"),
        (ExitReason::SpreadExpansion, "Spread expanded"),
        (ExitReason::ManualExit, "Manual exit"),
        (ExitReason::KillSwitch, "Kill switch activated"),
    ] {
        assert_eq!(reason.describe(), text);
    }
}

#[test]
fn first_trigger_of_the_kill_switch_stands() {
    let mut switch = KillSwitch::default();
    assert!(!switch.is_active());
    assert_eq!(switch.get_reason(), None);
    let mut orders = OrderExecutor::new(d(1.0));
    switch.trigger(&mut orders, KillReason::DrawdownLimit);
    switch.trigger_at(&mut orders, KillReason::ManualStop, 5);
    assert!(switch.is_active());
    assert_eq!(switch.get_reason(), Some(KillReason::DrawdownLimit));
}

#[test]
fn kill_reasons_have_their_texts() {
    assert_eq!(KillReason::DailyLossLimit.describe(), "Daily loss limit exceeded");
    assert_eq!(KillReason::DrawdownLimit.describe(), "Drawdown limit exceeded");
    assert_eq!(KillReason::ManualStop.describe(), "Manual stop requested");
    assert_eq!(KillReason::LatencySpike.describe(), "Network latency spike detected");
    assert_eq!(KillReason::BrokerDisconnect.describe(), "Broker connection lost");
    assert_eq!(KillReason::SpreadAnomaly.describe(), "Abnormal spread detected");
    assert_eq!(
        KillReason::UnknownError("disk full".to_string()).describe(),
        "Unknown error: disk full"
    );
}

#[test]
fn map_keeps_one_value_for_each_symbol() {
    let mut map: SymbolMap<u64> = SymbolMap::new();
    map.insert("A".to_string(), 1);
    map.insert("B".to_string(), 2);
    map.insert("A".to_string(), 3);
    assert_eq!(map.len(), 2);
    assert_eq!(map.get("A"), Some(&3));
    assert_eq!(*map.value_at(1), 2);
    assert_eq!(map.key_at(0), "A");
    assert_eq!(map.key_at(1), "B");
    *map.get_mut("B").unwrap() = 7;
    assert_eq!(map.get("B"), Some(&7));
    assert!(map.get_mut("C").is_none());
    let copy = map.clone();
    map.remove("A");
    assert!(!map.contains_key("A"));
    assert!(map.contains_key("B"));
    assert_eq!(copy.len(), 2);
}
