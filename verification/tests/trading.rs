use fx_scalp_core::scanner::{
    after_momentum, after_reversion, analysis_ticks, scan_for_opportunities, spawn_trade,
    spawn_trade_at, ScanStep,
};
use fx_scalp_core::kill_switch::stop_trading_at;
use fx_scalp_core::session::take_tick_at;
use fx_scalp_core::state_machine::SignalType;
use fx_scalp_core::trade_manager::{
    cleanup_completed_trades, cleanup_completed_trades_at, plan, settle_close, settle_close_at,
    settle_order, settle_order_at, update_active_trades, update_trade_at, CloseReply, Move,
    OrderReply, Request,
};
use fx_scalp_core::{
    AppConfig, AppState, Direction, Double, ExitReason, KillReason, MomentumSignal, OrderSide, ReversionSignal,
    StateEvent, Tick, TradingRun, TradingState,
};

fn d(x: f64) -> Double {
    Double::from_bits(x.to_bits())
}

fn f(x: Double) -> f64 {
    f64::from_bits(x.to_bits())
}

fn tick(symbol: &str, bid: f64, ask: f64) -> Tick {
    Tick {
        symbol: symbol.to_string(),
        bid: d(bid),
        ask: d(ask),
        bid_volume: d(0.0),
        ask_volume: d(0.0),
        timestamp_ms: 1000,
        received_at_ms: 1000,
        digits: 5,
        point: d(0.00001),
        tick_value: d(1.0),
    }
}

fn app(symbols: &[&str], parallel: u32, per_symbol: u32) -> AppState {
    let mut config = AppConfig::default();
    config.market.symbols = symbols.iter().map(|s| s.to_string()).collect();
    config.account.max_parallel_trades = parallel;
    config.account.max_trades_per_symbol = per_symbol;
    AppState::new(config, d(10000.0))
}

fn feed(state: &mut AppState, symbol: &str, count: usize) {
    for _ in 0..count {
        take_tick_at(state, tick(symbol, 1.0, 1.0001), 1000);
    }
}

/// A trade with an open long position bought at 1.0, and a run with this profit.
fn with_position(state: &mut AppState, symbol: &str, profit: f64) {
    spawn_trade_at(state, symbol.to_string(), SignalType::Momentum, Direction::Long, 1000);
    let i = state.active_trades.len() - 1;
    let machine = &mut state.active_trades[i].state_machine;
    machine
        .process_event_at(StateEvent::FiltersPass { lots: d(0.5), sl_pips: d(30.0) }, 1000)
        .unwrap();
    machine
        .process_event_at(StateEvent::OrderFilled { price: d(1.0), ticket: 5 }, 1000)
        .unwrap();
    let mut run = TradingRun::new(symbol.to_string(), d(1.0), d(0.5), 1000, d(30.0), d(60.0));
    run.unrealized_pnl = d(profit);
    state.active_trades[i].active_run = Some(run);
}

fn ok_reply(price: f64, ticket: u64) -> OrderReply {
    OrderReply {
        status: "ok".to_string(),
        req_id: None,
        price: Some(d(price)),
        ticket: Some(ticket),
    }
}

#[test]
fn symbols_with_enough_ticks_are_scanned() {
    let mut state = app(&["EURUSD", "GBPUSD", "USDJPY"], 5, 1);
    assert_eq!(scan_for_opportunities(&state, 1000), Vec::<String>::new());
    feed(&mut state, "EURUSD", 50);
    feed(&mut state, "GBPUSD", 49);
    feed(&mut state, "USDJPY", 60);
    assert_eq!(scan_for_opportunities(&state, 1000), vec!["EURUSD", "USDJPY"]);
    assert_eq!(analysis_ticks(&state, "USDJPY").unwrap().len(), 50);
    assert!(analysis_ticks(&state, "GBPUSD").is_none());
    assert!(analysis_ticks(&state, "XAUUSD").is_none());
}

#[test]
fn global_limit_stops_the_scan() {
    let mut state = app(&["EURUSD", "GBPUSD"], 1, 1);
    feed(&mut state, "GBPUSD", 50);
    assert_eq!(scan_for_opportunities(&state, 1000), vec!["GBPUSD"]);
    with_position(&mut state, "EURUSD", 1.0);
    assert_eq!(scan_for_opportunities(&state, 1000), Vec::<String>::new());
    state.config.account.max_parallel_trades = 2;
    assert_eq!(scan_for_opportunities(&state, 1000), vec!["GBPUSD"]);
}

#[test]
fn symbol_limit_gives_way_to_a_good_profit() {
    let mut state = app(&["EURUSD"], 5, 1);
    feed(&mut state, "EURUSD", 50);
    with_position(&mut state, "EURUSD", 5.0);
    assert_eq!(scan_for_opportunities(&state, 1000), Vec::<String>::new());
    state.active_trades[0].active_run.as_mut().unwrap().unrealized_pnl = d(5.01);
    assert_eq!(scan_for_opportunities(&state, 1000), vec!["EURUSD"]);
}

#[test]
fn losing_trades_are_not_added_to() {
    let mut state = app(&["EURUSD"], 5, 5);
    feed(&mut state, "EURUSD", 50);
    with_position(&mut state, "EURUSD", 3.0);
    assert_eq!(scan_for_opportunities(&state, 1000), vec!["EURUSD"]);
    with_position(&mut state, "EURUSD", -3.5);
    assert_eq!(scan_for_opportunities(&state, 1000), Vec::<String>::new());
}

#[test]
fn scan_is_not_changed_by_its_finds() {
    let mut state = app(&["EURUSD", "GBPUSD"], 1, 1);
    feed(&mut state, "EURUSD", 50);
    feed(&mut state, "GBPUSD", 50);
    let before = scan_for_opportunities(&state, 1000);
    spawn_trade(&mut state, "EURUSD".to_string(), SignalType::Reversion, Direction::Short);
    assert_eq!(scan_for_opportunities(&state, 1000), before);
    assert_eq!(state.trade_id_counter, 1);
    assert_eq!(state.active_trades[0].id, 1);
    assert!(matches!(
        state.active_trades[0].state_machine.current_state(),
        TradingState::Qualifying {
            signal_type: SignalType::Reversion,
            momentum_direction: Direction::Short,
            ..
        }
    ));
}

#[test]
fn signals_become_trades() {
    let mut momentum = MomentumSignal::default();
    assert_eq!(after_momentum(None), ScanStep::AskReversion);
    assert_eq!(after_momentum(Some(momentum)), ScanStep::AskReversion);
    momentum.detected = true;
    assert_eq!(
        after_momentum(Some(momentum)),
        ScanStep::Spawn { signal_type: SignalType::Momentum, direction: Direction::Short }
    );
    momentum.direction = 1;
    assert_eq!(
        after_momentum(Some(momentum)),
        ScanStep::Spawn { signal_type: SignalType::Momentum, direction: Direction::Long }
    );
    let mut reversion = ReversionSignal::default();
    assert_eq!(after_reversion(None), ScanStep::PassOver);
    assert_eq!(after_reversion(Some(reversion)), ScanStep::PassOver);
    reversion.detected = true;
    reversion.direction = -1;
    assert_eq!(
        after_reversion(Some(reversion)),
        ScanStep::Spawn { signal_type: SignalType::Reversion, direction: Direction::Short }
    );
    reversion.direction = 1;
    assert_eq!(
        after_reversion(Some(reversion)),
        ScanStep::Spawn { signal_type: SignalType::Reversion, direction: Direction::Long }
    );
}

fn passed(state: &AppState, i: usize) -> Option<(f64, f64)> {
    match plan(state, i, 1000) {
        Move::Apply(StateEvent::FiltersPass { lots, sl_pips }) => Some((f(lots), f(sl_pips))),
        Move::Apply(StateEvent::FiltersReject) => None,
        _ => panic!("Expected a filter event"),
    }
}

#[test]
fn qualifying_trade_gets_lots_and_a_stop() {
    let mut state = app(&["EURUSD"], 5, 1);
    spawn_trade_at(&mut state, "EURUSD".to_string(), SignalType::Momentum, Direction::Long, 1000);
    // No price yet
    assert_eq!(passed(&state, 0), None);
    feed(&mut state, "EURUSD", 1);
    // Spread of about one pip: the floor of thirty pips counts
    assert_eq!(passed(&state, 0), Some((0.1, 30.0)));
    state.account_equity = d(2000.0);
    assert_eq!(passed(&state, 0), Some((0.02, 30.0)));
}

#[test]
fn reversion_and_gold_get_wider_stops() {
    for (symbol, signal_type, expected) in [
        ("EURUSD", SignalType::Reversion, 30.0 * 1.2),
        ("XAUUSD", SignalType::Momentum, 300.0),
        ("mGOLDx", SignalType::Reversion, 300.0 * 1.2),
    ] {
        let mut state = app(&[symbol], 5, 1);
        feed(&mut state, symbol, 1);
        spawn_trade_at(&mut state, symbol.to_string(), signal_type, Direction::Long, 1000);
        assert_eq!(passed(&state, 0).unwrap().1, expected);
    }
}

#[test]
fn wide_markets_and_slow_lines_get_wider_stops() {
    let mut state = app(&["EURUSD"], 5, 1);
    state.config.execution.max_spread_pips = d(1000.0);
    state.config.execution.max_latency_ms = 1000;
    let config = AppConfig {
        execution: state.config.execution,
        ..AppConfig::default()
    };
    let mut state = AppState::new(config, d(10000.0));
    let mut wide = tick("EURUSD", 1.0, 1.5);
    wide.digits = 2;
    // A spread of half a pip, at a latency of 101
    wide.timestamp_ms = 899;
    take_tick_at(&mut state, wide.clone(), 1000);
    spawn_trade_at(&mut state, "EURUSD".to_string(), SignalType::Momentum, Direction::Long, 1000);
    assert_eq!(passed(&state, 0), Some((0.1, 30.0)));
    // A spread of six pips: eight times, doubled
    let config = AppConfig {
        execution: state.config.execution,
        ..AppConfig::default()
    };
    let mut state = AppState::new(config, d(10000.0));
    wide.ask = d(7.0);
    take_tick_at(&mut state, wide.clone(), 1000);
    spawn_trade_at(&mut state, "EURUSD".to_string(), SignalType::Momentum, Direction::Long, 1000);
    assert_eq!(passed(&state, 0), Some((0.1, 100.0)));
    let config = AppConfig {
        execution: state.config.execution,
        ..AppConfig::default()
    };
    let mut state = AppState::new(config, d(10000.0));
    wide.ask = d(17.0);
    take_tick_at(&mut state, wide, 1000);
    spawn_trade_at(&mut state, "EURUSD".to_string(), SignalType::Momentum, Direction::Long, 1000);
    assert_eq!(passed(&state, 0), Some((0.1, 16.0 * 8.0 * 2.0)));
}

#[test]
fn risk_limits_and_losers_reject_an_entry() {
    let mut state = app(&["EURUSD"], 5, 2);
    feed(&mut state, "EURUSD", 1);
    with_position(&mut state, "EURUSD", 3.0);
    spawn_trade_at(&mut state, "EURUSD".to_string(), SignalType::Momentum, Direction::Long, 1000);
    assert!(passed(&state, 1).is_some());
    state.active_trades[0].active_run.as_mut().unwrap().unrealized_pnl = d(-0.01);
    assert_eq!(passed(&state, 1), None);
    state.active_trades[0].active_run.as_mut().unwrap().unrealized_pnl = d(3.0);
    state.open_positions_count = 5;
    assert_eq!(passed(&state, 1), None);
    state.open_positions_count = 0;
    with_position(&mut state, "EURUSD", 3.0);
    assert_eq!(passed(&state, 1), None);
}

fn ready(direction: Direction) -> AppState {
    let mut state = app(&["EURUSD"], 5, 1);
    take_tick_at(&mut state, tick("EURUSD", 1.5, 1.75), 1000);
    spawn_trade_at(&mut state, "EURUSD".to_string(), SignalType::Momentum, direction, 1000);
    state.active_trades[0]
        .state_machine
        .process_event_at(StateEvent::FiltersPass { lots: d(0.25), sl_pips: d(50.0) }, 1000)
        .unwrap();
    state
}

#[test]
fn ready_trade_sends_its_order() {
    let mut state = ready(Direction::Long);
    match update_active_trades(&mut state, 0, 1000) {
        Some((0, Request::ExecuteOrder(order))) => {
            assert_eq!(order.symbol, "EURUSD");
            assert_eq!(order.side, OrderSide::Buy);
            assert_eq!(order.side.name(), "buy");
            assert_eq!(f(order.volume), 0.25);
            assert_eq!(order.slippage, 10);
            assert_eq!(f(order.sl), 1.75 - 50.0 / 10000.0);
            assert_eq!(f(order.tp), 1.75 + 100.0 / 10000.0);
        }
        _ => panic!("Expected an order"),
    }
    match plan(&ready(Direction::Short), 0, 1000) {
        Move::Order(order) => {
            assert_eq!(order.side, OrderSide::Sell);
            assert_eq!(order.side.name(), "sell");
            assert_eq!(f(order.sl), 1.5 + 50.0 / 10000.0);
            assert_eq!(f(order.tp), 1.5 - 100.0 / 10000.0);
        }
        _ => panic!("Expected an order"),
    }
}

#[test]
fn filled_order_opens_the_position() {
    let mut state = ready(Direction::Long);
    settle_order_at(&mut state, 0, Some(ok_reply(1.75, 42)), 1000, 1100);
    match state.active_trades[0].state_machine.current_state() {
        TradingState::PositionOpen { entry_price, current_lots, tp_pips, entry_time_ms, ticket, .. } => {
            assert_eq!(f(entry_price), 1.75);
            assert_eq!(f(current_lots), 0.25);
            assert_eq!(f(tp_pips), 100.0);
            assert_eq!(entry_time_ms, 1100);
            assert_eq!(ticket, 42);
        }
        // The bid is 2500 pips below the fill, far beyond the emergency stop
        TradingState::Exiting { reason, .. } => assert_eq!(reason, ExitReason::StopLossHit),
        _ => panic!("Expected a position"),
    }
    assert!(state.active_trades[0].active_run.is_some());
}

#[test]
fn pending_order_is_not_sent_again() {
    let mut state = ready(Direction::Long);
    let reply = OrderReply {
        status: "pending".to_string(),
        req_id: Some("abc".to_string()),
        price: None,
        ticket: None,
    };
    settle_order(&mut state, 0, Some(reply), 1000);
    assert_eq!(state.active_trades[0].pending_req_id, Some("abc".to_string()));
    assert!(matches!(
        state.active_trades[0].state_machine.current_state(),
        TradingState::EntryReady { .. }
    ));
    assert!(update_active_trades(&mut state, 0, 1000).is_none());
}

#[test]
fn no_order_is_sent_once_the_kill_switch_is_active() {
    let mut state = ready(Direction::Long);
    assert!(matches!(plan(&state, 0, 1000), Move::Order(_)));
    let waiting = state.active_trades[0].state_machine.current_state();
    let _ = stop_trading_at(&mut state, KillReason::ManualStop, 1000);
    assert!(!matches!(plan(&state, 0, 1000), Move::Order(_)));
    state.active_trades[0].state_machine.transition_to(waiting);
    assert!(matches!(plan(&state, 0, 1000), Move::Hold));
    assert!(update_active_trades(&mut state, 0, 1000).is_none());
}

#[test]
fn stop_ends_every_trade_and_closes_its_position() {
    let mut state = AppState::new(AppConfig::default(), d(10000.0));
    for symbol in ["AAA", "BBB", "CCC", "DDD"] {
        spawn_trade_at(&mut state, symbol.to_string(), SignalType::Momentum, Direction::Short, 5);
    }
    let held = |symbol: &str, ticket: u64| TradingState::PositionOpen {
        symbol: symbol.to_string(),
        direction: Direction::Short,
        entry_price: d(1.25),
        current_lots: d(0.25),
        sl_pips: d(30.0),
        tp_pips: d(60.0),
        entry_time_ms: 5,
        ticket,
    };
    state.active_trades[1].state_machine.transition_to(held("BBB", 71));
    state.active_trades[2].state_machine.transition_to(TradingState::Cooldown { until_ms: 9 });
    state.active_trades[3].state_machine.transition_to(held("DDD", 72));
    state.active_trades[3].pending_req_id = Some("abc".to_string());

    let closing = stop_trading_at(&mut state, KillReason::ManualStop, 20);
    assert_eq!(closing.orders.len(), 0);
    assert_eq!(closing.trades.len(), 1);
    let (i, close) = &closing.trades[0];
    assert_eq!(*i, 1);
    assert_eq!(close.symbol, "BBB");
    assert_eq!(close.side, OrderSide::Buy);
    assert_eq!(f(close.volume), 0.25);
    assert_eq!(close.ticket, 71);
    for (i, symbol) in [(0, "AAA"), (1, "BBB"), (3, "DDD")] {
        assert_eq!(
            state.active_trades[i].state_machine.current_state(),
            TradingState::Exiting {
                symbol: symbol.to_string(),
                direction: Direction::Short,
                reason: ExitReason::KillSwitch,
                started_at_ms: 20,
                lots: d(0.0),
                ticket: 0,
            }
        );
    }
    assert_eq!(state.active_trades[2].state_machine.current_state(), TradingState::Idle);
    // A second stop ends nothing
    assert_eq!(stop_trading_at(&mut state, KillReason::ManualStop, 21).trades.len(), 0);
    assert!(matches!(
        state.active_trades[0].state_machine.current_state(),
        TradingState::Exiting { started_at_ms: 20, .. }
    ));
}

#[test]
fn incomplete_fill_gives_the_trade_up() {
    let mut state = ready(Direction::Long);
    let reply = OrderReply {
        status: "ok".to_string(),
        req_id: None,
        price: Some(d(1.75)),
        ticket: None,
    };
    settle_order_at(&mut state, 0, Some(reply), 1000, 1000);
    assert_eq!(state.active_trades[0].state_machine.current_state(), TradingState::Idle);
    assert!(!state.execution_cooldowns.contains_key("EURUSD"));
}

#[test]
fn refused_order_holds_the_symbol() {
    let refusal = OrderReply {
        status: "error".to_string(),
        req_id: None,
        price: None,
        ticket: None,
    };
    for reply in [Some(refusal), None] {
        let mut state = ready(Direction::Long);
        feed(&mut state, "EURUSD", 50);
        settle_order_at(&mut state, 0, reply, 1000, 1000);
        assert_eq!(state.active_trades[0].state_machine.current_state(), TradingState::Idle);
        assert_eq!(state.execution_cooldowns.get("EURUSD"), Some(&31000));
        assert_eq!(scan_for_opportunities(&state, 30999), Vec::<String>::new());
        assert_eq!(scan_for_opportunities(&state, 31000), vec!["EURUSD"]);
    }
}

#[test]
fn exiting_trade_closes_its_position() {
    for (direction, side) in [(Direction::Long, OrderSide::Sell), (Direction::Short, OrderSide::Buy)] {
        let mut state = ready(direction);
        let machine = &mut state.active_trades[0].state_machine;
        machine
            .process_event_at(StateEvent::OrderFilled { price: d(1.6), ticket: 9 }, 1000)
            .unwrap();
        machine.process_event_at(StateEvent::ReversalDetected, 1000).unwrap();
        match update_trade_at(&mut state, 0, 1000, 1000) {
            Some(Request::ClosePosition(close)) => {
                assert_eq!(close.symbol, "EURUSD");
                assert_eq!(close.side, side);
                assert_eq!(f(close.volume), 0.25);
                assert_eq!(close.ticket, 9);
            }
            _ => panic!("Expected a close"),
        }
        let pending = CloseReply { status: "pending".to_string(), req_id: Some("q".to_string()) };
        settle_close(&mut state, 0, Some(pending), 1000);
        assert_eq!(state.active_trades[0].pending_req_id, Some("q".to_string()));
        assert!(update_active_trades(&mut state, 0, 1000).is_none());
    }
}

#[test]
fn any_other_answer_to_a_close_closes() {
    let answers = vec![
        Some(CloseReply { status: "ok".to_string(), req_id: None }),
        Some(CloseReply { status: "error".to_string(), req_id: None }),
        None,
    ];
    for answer in answers {
        let mut state = ready(Direction::Long);
        let machine = &mut state.active_trades[0].state_machine;
        machine
            .process_event_at(StateEvent::OrderFilled { price: d(1.6), ticket: 9 }, 1000)
            .unwrap();
        machine.process_event_at(StateEvent::ReversalDetected, 1000).unwrap();
        settle_close_at(&mut state, 0, answer, 1000, 2000);
        assert_eq!(
            state.active_trades[0].state_machine.current_state(),
            TradingState::Cooldown { until_ms: 32000 }
        );
        // The cooldown ends by itself
        assert!(update_trade_at(&mut state, 0, 31999, 31999).is_none());
        assert!(matches!(
            state.active_trades[0].state_machine.current_state(),
            TradingState::Cooldown { .. }
        ));
        assert!(update_trade_at(&mut state, 0, 32000, 32000).is_none());
        assert_eq!(state.active_trades[0].state_machine.current_state(), TradingState::Idle);
    }
}

fn exit_at(bid: f64, peak: f64, now: u64) -> TradingState {
    let mut state = app(&["EURUSD"], 5, 1);
    take_tick_at(&mut state, tick("EURUSD", bid, bid + 0.0001), 1000);
    with_position(&mut state, "EURUSD", 0.0);
    let pips = (bid - 1.0) * 10000.0;
    let pnl = ((bid - 1.0) / 0.00001).abs() * 1.0 * 0.5 * pips.signum();
    {
        let run = state.active_trades[0].active_run.as_mut().unwrap();
        run.peak_profit = d(peak);
        run.unrealized_pnl = d(pnl);
    }
    assert!(update_trade_at(&mut state, 0, now, now).is_none());
    let run = state.active_trades[0].active_run.as_ref().unwrap();
    assert_eq!(f(run.unrealized_pnl), pnl);
    state.active_trades[0].state_machine.current_state()
}

fn reason_of(state: TradingState) -> Option<ExitReason> {
    match state {
        TradingState::Exiting { reason, .. } => Some(reason),
        TradingState::PositionOpen { .. } => None,
        _ => panic!("Expected a position or an exit"),
    }
}

#[test]
fn position_exits_when_it_is_called_for() {
    // Sixty pips are the target, ninety lost pips the emergency stop
    assert_eq!(reason_of(exit_at(1.007, 0.0, 1000)), Some(ExitReason::TakeProfitHit));
    assert_eq!(reason_of(exit_at(0.99, 0.0, 1000)), Some(ExitReason::StopLossHit));
    // A loss in between is held, whatever the peak was
    assert_eq!(reason_of(exit_at(0.995, 1000.0, 99000)), None);
    // In profit: a reversal, a stall, or neither
    assert_eq!(reason_of(exit_at(1.002, 1000.0, 1000)), Some(ExitReason::ReversalDetected));
    assert_eq!(reason_of(exit_at(1.002, 0.0, 16001)), Some(ExitReason::StallTimeout));
    assert_eq!(reason_of(exit_at(1.002, 0.0, 16000)), None);
    // A clock that stands before the last move has measured no stall
    assert_eq!(reason_of(exit_at(1.002, 0.0, 500)), None);
}

#[test]
fn run_starts_with_the_position() {
    let mut state = app(&["EURUSD"], 5, 1);
    with_position(&mut state, "EURUSD", 0.0);
    state.active_trades[0].active_run = None;
    // Without a price the run starts all the same
    assert!(update_trade_at(&mut state, 0, 1500, 1500).is_none());
    let run = state.active_trades[0].active_run.as_ref().unwrap();
    assert_eq!(f(run.entry_price), 1.0);
    assert_eq!(f(run.current_lots), 0.5);
    assert_eq!(run.entry_time_ms, 1000);
    let mut short = tick("EURUSD", 0.9990, 0.9995);
    short.point = d(0.0);
    take_tick_at(&mut state, short, 2000);
    assert!(update_trade_at(&mut state, 0, 2000, 2000).is_none());
    let run = state.active_trades[0].active_run.as_ref().unwrap();
    assert_eq!(f(run.unrealized_pnl), (0.9990 - 1.0) * 10000.0 * 0.5 * 10.0);
    assert_eq!(run.last_price_change_ms, 2000);
}

#[test]
fn update_goes_on_after_an_answer() {
    let mut state = app(&["EURUSD"], 5, 9);
    feed(&mut state, "EURUSD", 1);
    for _ in 0..3 {
        spawn_trade_at(&mut state, "EURUSD".to_string(), SignalType::Momentum, Direction::Long, 1000);
    }
    // The filters pass for all three, then each sends its order in turn
    assert!(update_active_trades(&mut state, 0, 1000).is_none());
    let mut sent = Vec::new();
    let mut next = update_active_trades(&mut state, 0, 1000);
    while let Some((i, _)) = next {
        sent.push(i);
        settle_order_at(&mut state, i, Some(ok_reply(1.0, i as u64)), 1000, 1000);
        next = update_active_trades(&mut state, i + 1, 1000);
    }
    assert_eq!(sent, vec![0, 1, 2]);
    for trade in &state.active_trades {
        assert!(matches!(
            trade.state_machine.current_state(),
            TradingState::PositionOpen { .. }
        ));
    }
}

#[test]
fn cleanup_books_the_profit_of_ended_trades() {
    let mut state = app(&["EURUSD"], 5, 9);
    with_position(&mut state, "EURUSD", 12.0);
    with_position(&mut state, "EURUSD", 7.5);
    with_position(&mut state, "GBPUSD", -2.0);
    spawn_trade_at(&mut state, "EURUSD".to_string(), SignalType::Momentum, Direction::Long, 1000);
    state.daily_pnl = d(1.0);
    state.active_trades[0].state_machine.transition_to(TradingState::Idle);
    state.active_trades[2].state_machine.transition_to(TradingState::Idle);
    state.active_trades[3].state_machine.transition_to(TradingState::Idle);
    let entries = cleanup_completed_trades_at(&mut state, 5000);
    assert_eq!(f(state.daily_pnl), 1.0 + (12.0 + -2.0));
    assert_eq!(entries.len(), 2);
    assert_eq!(entries[0].trade_id, 1);
    assert_eq!(f(entries[0].realized_pnl), 12.0);
    assert_eq!(entries[0].exit_time_ms, 5000);
    assert_eq!(entries[0].exit_reason, ExitReason::TakeProfitHit);
    assert_eq!(entries[0].direction, None);
    assert_eq!(entries[1].symbol, "GBPUSD");
    assert_eq!(state.active_trades.len(), 1);
    assert_eq!(state.active_trades[0].id, 2);
    assert_eq!(cleanup_completed_trades(&mut state).len(), 0);
    assert_eq!(state.active_trades.len(), 1);
}
