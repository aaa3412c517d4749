use fx_scalp_core::bridge_client::{conclude, endpoints, BridgeFault, BridgeInfo, BridgeResponse};
use fx_scalp_core::json::{count_at, number_at, text_at};
use fx_scalp_core::session::{
    apply_account, check_limits, check_limits_at, heartbeat_due, sync_account, take_tick,
    take_tick_at, AccountUpdate, Guard,
};
use fx_scalp_core::trade_journal::TradeJournal;
use fx_scalp_core::trade_manager::{CloseReply, OrderReply};
use fx_scalp_core::{
    ActiveTrade, AppConfig, AppState, Direction, Double, ExitReason, KillReason, StateEvent, Tick,
    TradingRun,
};
use serde_json::Value;

fn d(x: f64) -> Double {
    Double::from_bits(x.to_bits())
}

fn f(x: Double) -> f64 {
    f64::from_bits(x.to_bits())
}

fn parse(text: &str) -> Value {
    serde_json::from_str(text).unwrap()
}

fn response(status: &str, data: Option<&str>, message: Option<&str>) -> BridgeResponse {
    BridgeResponse {
        req_id: None,
        status: status.to_string(),
        data: data.map(parse),
        message: message.map(|text| text.to_string()),
    }
}

#[test]
fn endpoints_use_the_host_alone() {
    let found = endpoints("127.0.0.1:5555");
    assert_eq!(found.publisher, "tcp://127.0.0.1:5556");
    assert_eq!(found.requests, "tcp://127.0.0.1:5557");
    assert_eq!(found.results, "tcp://127.0.0.1:5558");
    assert_eq!(endpoints("localhost").requests, "tcp://localhost:5557");
    assert_eq!(endpoints("a:b:c").requests, "tcp://a:5557");
    assert_eq!(endpoints(":5555").requests, "tcp://:5557");
    assert_eq!(endpoints("").requests, "tcp://:5557");
}

#[test]
fn requests_have_ids_of_their_own() {
    let first = BridgeInfo::prepare(true, "get_account", None).unwrap();
    let second = BridgeInfo::prepare(true, "execute_order", Some(parse("{\"a\":1}"))).unwrap();
    assert_eq!(first.method, "get_account");
    assert!(first.params.is_none());
    assert_eq!(second.params, Some(parse("{\"a\":1}")));
    assert_ne!(first.req_id, second.req_id);
    for id in [&first.req_id, &second.req_id] {
        let chars: Vec<char> = id.chars().collect();
        assert_eq!(chars.len(), 36);
        for (i, c) in chars.iter().enumerate() {
            match i {
                8 | 13 | 18 | 23 => assert_eq!(*c, '-'),
                14 => assert_eq!(*c, '4'),
                19 => assert!(matches!(*c, '8' | '9' | 'a' | 'b')),
                _ => assert!(matches!(*c, '0'..='9' | 'a'..='f')),
            }
        }
        let parsed: uuid::Uuid = id.parse().unwrap();
        assert_eq!(parsed.get_version_num(), 4);
    }
}

#[test]
fn disconnected_bridge_prepares_nothing() {
    let fault = BridgeInfo::prepare(false, "get_account", None).err().unwrap();
    assert_eq!(fault.describe(), "Bridge is disconnected");
}

#[test]
fn faults_have_their_texts() {
    assert_eq!(BridgeFault::NotQueued.describe(), "Failed to send order to ZMQ thread");
    assert_eq!(
        BridgeFault::SendFailed { cause: "x".to_string() }.describe(),
        "ZMQ REQ send error: x"
    );
    assert_eq!(
        BridgeFault::ReceiveFailed { cause: "y".to_string() }.describe(),
        "ZMQ REQ recv error: y"
    );
    assert_eq!(BridgeFault::ReplyTimeout.describe(), "ZMQ REQ timeout (5s)");
    assert_eq!(
        BridgeFault::InvalidReply { text: "{".to_string() }.describe(),
        "Invalid JSON response: {"
    );
    assert_eq!(
        BridgeFault::RequestTimeout { method: "get_account".to_string() }.describe(),
        "Request timeout for method get_account"
    );
}

#[test]
fn accepted_response_carries_data_and_status() {
    let answer = response("ok", Some("{\"balance\": 12.5, \"n\": 3}"), None).settle().unwrap();
    assert_eq!(answer, parse("{\"balance\": 12.5, \"n\": 3, \"status\": \"ok\"}"));
    let answer = response("pending", Some("{\"status\": \"old\", \"req_id\": \"r\"}"), None)
        .settle()
        .unwrap();
    assert_eq!(answer, parse("{\"status\": \"pending\", \"req_id\": \"r\"}"));
    // Data that is no object is left out
    for data in [None, Some("null"), Some("[1, 2]"), Some("7")] {
        let answer = response("ok", data, None).settle().unwrap();
        assert_eq!(answer, parse("{\"status\": \"ok\"}"));
    }
}

#[test]
fn refused_response_carries_the_message() {
    let refused = response("error", Some("{\"a\": 1}"), Some("No money")).settle();
    assert_eq!(refused, Err("No money".to_string()));
    assert_eq!(response("", None, None).settle(), Err("unknown error".to_string()));
    assert_eq!(response("OK", None, None).settle(), Err("unknown error".to_string()));
}

#[test]
fn outcome_is_an_answer_or_a_text() {
    let answer = conclude(Ok(response("ok", Some("{\"a\": 1}"), None)));
    assert_eq!(answer, Ok(parse("{\"a\": 1, \"status\": \"ok\"}")));
    assert_eq!(conclude(Ok(response("error", None, Some("m")))), Err("m".to_string()));
    let failed = conclude(Err(BridgeFault::ReplyTimeout));
    assert_eq!(failed, Err("ZMQ REQ timeout (5s)".to_string()));
}

#[test]
fn fields_are_read_by_kind() {
    let value = parse("{\"t\": \"text\", \"x\": 1.5, \"n\": 42, \"m\": -3, \"o\": {\"n\": 1}}");
    assert_eq!(text_at(&value, "t"), Some("text".to_string()));
    assert_eq!(text_at(&value, "x"), None);
    assert_eq!(text_at(&value, "missing"), None);
    assert_eq!(number_at(&value, "x").map(f), Some(1.5));
    assert_eq!(number_at(&value, "n").map(f), Some(42.0));
    assert_eq!(number_at(&value, "m").map(f), Some(-3.0));
    assert_eq!(number_at(&value, "t").map(f), None);
    assert_eq!(count_at(&value, "n"), Some(42));
    assert_eq!(count_at(&value, "m"), None);
    assert_eq!(count_at(&value, "x"), None);
    assert_eq!(count_at(&parse("[1]"), "n"), None);
}

#[test]
fn order_replies_are_read() {
    let reply = OrderReply::read(&parse(
        "{\"status\": \"ok\", \"data\": {\"price\": 1.25, \"ticket\": 99}}",
    ));
    assert_eq!(reply.status, "ok");
    assert_eq!(reply.price.map(f), Some(1.25));
    assert_eq!(reply.ticket, Some(99));
    assert_eq!(reply.req_id, None);
    let reply = OrderReply::read(&parse("{\"status\": \"pending\", \"req_id\": \"abc\"}"));
    assert_eq!(reply.req_id, Some("abc".to_string()));
    assert!(reply.price.is_none() && reply.ticket.is_none());
    // Price and ticket count inside the data alone
    let reply = OrderReply::read(&parse("{\"status\": 5, \"price\": 1.25, \"ticket\": 99}"));
    assert_eq!(reply.status, "");
    assert!(reply.price.is_none() && reply.ticket.is_none());
    let reply = CloseReply::read(&parse("{\"status\": \"pending\", \"req_id\": \"q\"}"));
    assert_eq!(reply.status, "pending");
    assert_eq!(reply.req_id, Some("q".to_string()));
    // The status of a settled response is read back
    let answer = response("pending", Some("{\"req_id\": \"z\"}"), None).settle().unwrap();
    assert_eq!(OrderReply::read(&answer).status, "pending");
    assert_eq!(OrderReply::read(&answer).req_id, Some("z".to_string()));
}

#[test]
fn account_updates_are_taken_over() {
    let mut state = AppState::new(AppConfig::default(), d(10000.0));
    let update = AccountUpdate::read(&parse(
        "{\"balance\": 20000.0, \"equity\": 19000, \"positions_count\": 3}",
    ));
    sync_account(&mut state, update);
    assert_eq!(f(state.account_balance), 20000.0);
    assert_eq!(f(state.account_equity), 19000.0);
    assert_eq!(state.open_positions_count, 0);
    apply_account(&mut state, update);
    assert_eq!(state.open_positions_count, 3);
    apply_account(&mut state, AccountUpdate::read(&parse("{\"equity\": 1.5}")));
    assert_eq!(f(state.account_balance), 20000.0);
    assert_eq!(f(state.account_equity), 1.5);
    assert_eq!(state.open_positions_count, 3);
    apply_account(&mut state, AccountUpdate::read(&parse("{\"positions_count\": 4294967297}")));
    assert_eq!(state.open_positions_count, 1);
}

#[test]
fn daily_loss_halts_the_session() {
    let mut state = AppState::new(AppConfig::default(), d(10000.0));
    state.daily_pnl = d(-200.0);
    assert!(matches!(check_limits(&mut state), Guard::Clear));
    state.daily_pnl = d(-200.5);
    match check_limits_at(&mut state, 17) {
        Guard::DailyLossHit { closing } => {
            assert_eq!(closing.orders.len(), 0);
            assert_eq!(closing.trades.len(), 0);
        }
        _ => panic!("Expected the daily limit"),
    }
    assert!(state.order_executor.is_halted());
    assert!(state.kill_switch.is_active());
    state.daily_pnl = d(0.0);
    match check_limits(&mut state) {
        Guard::Halted { reason } => assert_eq!(reason, Some(KillReason::DailyLossLimit)),
        _ => panic!("Expected a halt"),
    }
}

#[test]
fn heartbeat_comes_every_thirty_seconds() {
    assert!(!heartbeat_due(100, 129));
    assert!(heartbeat_due(100, 130));
    assert!(!heartbeat_due(100, 50));
}

#[test]
fn ticks_get_their_time_of_arrival() {
    let mut state = AppState::new(AppConfig::default(), d(10000.0));
    let tick = Tick {
        symbol: "EURUSD".to_string(),
        bid: d(1.0),
        ask: d(1.5),
        bid_volume: d(0.0),
        ask_volume: d(0.0),
        timestamp_ms: 900,
        received_at_ms: 0,
        digits: 5,
        point: d(0.00001),
        tick_value: d(1.0),
    };
    take_tick_at(&mut state, tick.clone(), 1000);
    let buffer = state.tick_ingestion.get_buffer("EURUSD").unwrap();
    assert_eq!(buffer.latest(1)[0].received_at_ms, 1000);
    assert_eq!(buffer.current_latency_ms(), Some(100));
    take_tick(&mut state, tick);
    let buffer = state.tick_ingestion.get_buffer("EURUSD").unwrap();
    assert_eq!(buffer.len(), 2);
    assert!(buffer.latest(1)[0].received_at_ms > 1_600_000_000_000);
}

fn journalled_trade() -> ActiveTrade {
    let mut trade = ActiveTrade::new(12, "EURUSD".to_string());
    let mut run = TradingRun::new("EURUSD".to_string(), d(1.25), d(0.5), 77, d(30.0), d(60.0));
    run.unrealized_pnl = d(100.0);
    run.locked_profit = d(25.0);
    trade.active_run = Some(run);
    trade
}

#[test]
fn journal_starts_with_its_header() {
    let journal = TradeJournal::new("logs/trade_journal.csv");
    assert_eq!(journal.file_path(), "logs/trade_journal.csv");
    assert_eq!(journal.header(true), None);
    assert_eq!(
        journal.header(false),
        Some("trade_id,symbol,direction,entry_time_ms,exit_time_ms,entry_price,exit_price,lots,realized_pnl,exit_reason\n")
    );
}

#[test]
fn journal_line_is_put_together() {
    let journal = TradeJournal::new("j.csv");
    let mut trade = journalled_trade();
    let entry = journal.log_trade_at(&trade, ExitReason::TakeProfitHit, 99).unwrap();
    assert_eq!(f(entry.exit_price), 1.25 + 125.0 / (0.5 * 100000.0));
    assert_eq!(f(entry.realized_pnl), 125.0);
    assert_eq!(
        entry.line(),
        "12,EURUSD,Unknown,77,99,1.25000,1.25250,0.50,125.00,TakeProfitHit\n"
    );
    let _ = trade
        .state_machine
        .process_event(StateEvent::MomentumDetected("EURUSD".to_string(), Direction::Short));
    let _ = trade.state_machine.process_event(StateEvent::KillSwitchTriggered);
    let entry = journal.log_trade(&trade, ExitReason::SpreadExpansion).unwrap();
    assert_eq!(entry.direction, Some(Direction::Short));
    assert!(entry.exit_time_ms > 1_600_000_000_000);
    assert!(entry.line().ends_with(",SpreadExpansion\n"));
    assert!(entry.line().starts_with("12,EURUSD,Short,77,"));
}

#[test]
fn trade_without_a_run_is_not_journalled() {
    let journal = TradeJournal::new("j.csv");
    let trade = ActiveTrade::new(1, "EURUSD".to_string());
    assert!(journal.log_trade(&trade, ExitReason::ManualExit).is_none());
}

#[test]
fn every_reason_has_its_name_in_the_journal() {
    let journal = TradeJournal::new("j.csv");
    for reason in [
        ExitReason::TakeProfitHit,
        ExitReason::StopLossHit,
        ExitReason::MomentumDecay,
        ExitReason::StallTimeout,
        ExitReason::ReversalDetected,
        ExitReason::SpreadExpansion,
        ExitReason::ManualExit,
        ExitReason::KillSwitch,
    ] {
        let entry = journal.log_trade_at(&journalled_trade(), reason, 5).unwrap();
        assert_eq!(
            entry.line(),
            format!("12,EURUSD,Unknown,77,5,1.25000,1.25250,0.50,125.00,{:?}\n", reason)
        );
    }
}
