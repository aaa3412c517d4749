use fx_scalp_core::kill_switch::{stop_trading, stop_trading_at};
use fx_scalp_core::{
    AppConfig, AppState, Double, Fill, KillReason, KillSwitch, Order, OrderExecutor, OrderSide, OrderStatus,
    OrderType, Position,
};

fn d(x: f64) -> Double {
    Double::from_bits(x.to_bits())
}

fn f(x: Double) -> f64 {
    f64::from_bits(x.to_bits())
}

fn fill_order(executor: &mut OrderExecutor, symbol: &str, side: OrderSide, lots: f64, price: f64, now: u64) -> Fill {
    let order = executor.create_market_order_at(symbol, side, d(lots), now);
    let id = executor.submit_order_at(order, now).unwrap();
    executor
        .process_fill_at(id, d(price), None, d(0.00001), d(1.0), 5, now)
        .unwrap()
}

#[test]
fn orders_get_ids_in_turn() {
    let mut executor = OrderExecutor::new(d(1.0));
    let first = executor.create_market_order_at("EURUSD", OrderSide::Buy, d(0.1), 77);
    let second = executor.create_market_order("EURUSD", OrderSide::Sell, d(0.2));
    assert_eq!(first.id, 1);
    assert_eq!(second.id, 2);
    assert_eq!(first.symbol, "EURUSD");
    assert_eq!(first.side, OrderSide::Buy);
    assert_eq!(first.order_type, OrderType::Market);
    assert_eq!(f(first.lots), 0.1);
    assert!(first.price.is_none());
    assert_eq!(f(first.slippage_tolerance), 1.0);
    assert_eq!(first.status, OrderStatus::Pending);
    assert_eq!(first.created_at_ms, 77);
    assert_eq!(first.updated_at_ms, 77);
    assert!(second.created_at_ms > 1_600_000_000_000);
}

#[test]
fn lot_size_must_be_positive() {
    let mut executor = OrderExecutor::new(d(1.0));
    let order = executor.create_market_order_at("EURUSD", OrderSide::Buy, d(0.0), 1);
    assert_eq!(executor.submit_order(order), Err("Invalid lot size".to_string()));
    let order = executor.create_market_order_at("EURUSD", OrderSide::Buy, d(-0.1), 1);
    assert_eq!(executor.submit_order(order), Err("Invalid lot size".to_string()));
    assert_eq!(executor.pull_pending_submissions().len(), 0);
}

#[test]
fn submitted_orders_wait_in_the_queue() {
    let mut executor = OrderExecutor::new(d(1.0));
    let order = executor.create_market_order_at("EURUSD", OrderSide::Buy, d(0.1), 1);
    assert_eq!(executor.submit_order_at(order.clone(), 5), Ok(1));
    let queue = executor.pull_pending_submissions();
    assert_eq!(queue.len(), 1);
    assert_eq!(queue[0].status, OrderStatus::Submitted);
    assert_eq!(queue[0].created_at_ms, 1);
    assert_eq!(queue[0].updated_at_ms, 5);
    // The same id again replaces the order
    let mut again: Order = order;
    again.lots = d(0.3);
    assert_eq!(executor.submit_order_at(again, 6), Ok(1));
    let queue = executor.pull_pending_submissions();
    assert_eq!(queue.len(), 1);
    assert_eq!(f(queue[0].lots), 0.3);
}

#[test]
fn bridge_sets_the_status() {
    let mut executor = OrderExecutor::new(d(1.0));
    let order = executor.create_market_order_at("EURUSD", OrderSide::Buy, d(0.1), 1);
    executor.submit_order_at(order, 1).unwrap();
    let statuses = vec![
        OrderStatus::PartiallyFilled { filled_lots: d(0.05) },
        OrderStatus::Filled { fill_price: d(1.1), slippage: d(0.2) },
        OrderStatus::Rejected { reason: "no money".to_string() },
        OrderStatus::Expired,
        OrderStatus::Pending,
    ];
    for status in statuses {
        executor.update_from_bridge(1, status.clone());
        assert_eq!(executor.pull_pending_submissions()[0].status, status);
    }
    executor.update_from_bridge_at(1, OrderStatus::Cancelled, 99);
    assert_eq!(executor.pull_pending_submissions()[0].updated_at_ms, 99);
    executor.update_from_bridge(12, OrderStatus::Expired);
    assert_eq!(executor.pull_pending_submissions()[0].status, OrderStatus::Cancelled);
}

#[test]
fn order_is_filled_once() {
    let mut executor = OrderExecutor::new(d(1.0));
    let order = executor.create_market_order_at("EURUSD", OrderSide::Buy, d(0.1), 1);
    executor.submit_order_at(order, 1).unwrap();
    let fill = executor
        .process_fill(1, d(1.1002), Some(d(1.1001)), d(0.00001), d(1.0), 5)
        .unwrap();
    assert_eq!(fill.order_id, 1);
    assert_eq!(fill.symbol, "EURUSD");
    assert_eq!(fill.side, OrderSide::Buy);
    assert_eq!(f(fill.lots), 0.1);
    assert_eq!(f(fill.price), 1.1002);
    assert_eq!(f(fill.slippage_pips), (1.1002f64 - 1.1001).abs() * 10000.0);
    assert_eq!(
        executor
            .process_fill(1, d(1.2), None, d(0.00001), d(1.0), 5)
            .map(|fill| fill.order_id),
        Err("Order 1 not found".to_string())
    );
    assert_eq!(executor.pull_pending_submissions().len(), 0);
}

#[test]
fn slippage_depends_on_the_digits() {
    for (digits, multiplier) in [(5, 10000.0), (4, 10000.0), (3, 100.0), (2, 1.0)] {
        let mut executor = OrderExecutor::new(d(1.0));
        let order = executor.create_market_order_at("EURUSD", OrderSide::Buy, d(0.1), 1);
        executor.submit_order_at(order, 1).unwrap();
        let fill = executor
            .process_fill_at(1, d(1.0), Some(d(1.5)), d(0.00001), d(1.0), digits, 3)
            .unwrap();
        assert_eq!(f(fill.slippage_pips), 0.5 * multiplier);
        assert_eq!(fill.timestamp_ms, 3);
    }
}

#[test]
fn fills_on_one_side_add_up() {
    let mut executor = OrderExecutor::new(d(1.0));
    fill_order(&mut executor, "EURUSD", OrderSide::Buy, 0.5, 1.0, 10);
    fill_order(&mut executor, "EURUSD", OrderSide::Buy, 1.5, 2.0, 20);
    let position = executor.get_position("EURUSD").unwrap();
    assert_eq!(f(position.lots), 2.0);
    assert_eq!(f(position.entry_price), (1.0 * 0.5 + 2.0 * 1.5) / 2.0);
    assert_eq!(position.opened_at_ms, 10);
    assert!(executor.has_open_positions());
}

#[test]
fn opposite_fills_reduce_close_and_reverse() {
    let mut executor = OrderExecutor::new(d(1.0));
    fill_order(&mut executor, "EURUSD", OrderSide::Buy, 1.0, 1.0, 10);
    fill_order(&mut executor, "GBPUSD", OrderSide::Buy, 3.0, 1.5, 10);
    fill_order(&mut executor, "EURUSD", OrderSide::Sell, 0.25, 1.5, 20);
    assert_eq!(f(executor.get_position("EURUSD").unwrap().lots), 0.75);
    assert_eq!(executor.get_position("EURUSD").unwrap().side, OrderSide::Buy);
    fill_order(&mut executor, "EURUSD", OrderSide::Sell, 1.0, 2.0, 30);
    let reversed = executor.get_position("EURUSD").unwrap();
    assert_eq!(reversed.side, OrderSide::Sell);
    assert_eq!(f(reversed.lots), 0.25);
    assert_eq!(f(reversed.entry_price), 2.0);
    assert_eq!(reversed.opened_at_ms, 30);
    fill_order(&mut executor, "EURUSD", OrderSide::Buy, 0.25, 2.5, 40);
    assert!(executor.get_position("EURUSD").is_none());
    assert_eq!(f(executor.get_position("GBPUSD").unwrap().lots), 3.0);
    assert_eq!(executor.get_all_positions().len(), 1);
}

#[test]
fn cancelled_orders_stay_pending() {
    let mut executor = OrderExecutor::new(d(1.0));
    for _ in 0..3 {
        let order = executor.create_market_order_at("EURUSD", OrderSide::Buy, d(0.1), 1);
        executor.submit_order_at(order, 1).unwrap();
    }
    assert_eq!(executor.cancel_order_at(2, 7), Ok(()));
    assert_eq!(executor.cancel_order(9), Err("Order 9 not found".to_string()));
    let queue = executor.pull_pending_submissions();
    assert_eq!(queue[0].status, OrderStatus::Submitted);
    assert_eq!(queue[1].status, OrderStatus::Cancelled);
    assert_eq!(queue[1].updated_at_ms, 7);
    assert_eq!(queue[2].status, OrderStatus::Submitted);
    executor.cancel_all_at(8);
    for order in executor.pull_pending_submissions() {
        assert_eq!(order.status, OrderStatus::Cancelled);
        assert_eq!(order.updated_at_ms, 8);
    }
    executor.cancel_all();
    assert_eq!(executor.cancel_order(1), Ok(()));
    assert_eq!(executor.pull_pending_submissions().len(), 3);
}

#[test]
fn closing_orders_close_every_position() {
    let mut executor = OrderExecutor::new(d(1.0));
    fill_order(&mut executor, "EURUSD", OrderSide::Buy, 1.0, 1.0, 10);
    fill_order(&mut executor, "GBPUSD", OrderSide::Sell, 0.5, 1.5, 10);
    let orders = executor.close_all_positions_at(50);
    assert_eq!(orders.len(), 2);
    assert_eq!(orders[0].id, 3);
    assert_eq!(orders[1].id, 4);
    assert_eq!(orders[0].side, OrderSide::Sell);
    assert_eq!(orders[1].side, OrderSide::Buy);
    assert_eq!(f(orders[1].lots), 0.5);
    assert_eq!(orders[1].symbol, "GBPUSD");
    for order in orders {
        let id = executor.submit_order_at(order, 51).unwrap();
        executor
            .process_fill_at(id, d(1.2), None, d(0.00001), d(1.0), 5, 52)
            .unwrap();
    }
    assert!(!executor.has_open_positions());
    assert_eq!(executor.close_all_positions().len(), 0);
}

#[test]
fn stop_cancels_closes_and_refuses() {
    let mut state = AppState::new(AppConfig::default(), d(10000.0));
    let executor = &mut state.order_executor;
    fill_order(executor, "EURUSD", OrderSide::Buy, 1.0, 1.0, 10);
    fill_order(executor, "GBPUSD", OrderSide::Sell, 0.5, 1.5, 10);
    let order = executor.create_market_order_at("USDJPY", OrderSide::Buy, d(0.1), 11);
    executor.submit_order_at(order, 11).unwrap();
    let another = executor.create_market_order_at("USDJPY", OrderSide::Buy, d(0.1), 12);

    let stop = stop_trading_at(&mut state, KillReason::ManualStop, 20);
    assert_eq!(stop.trades.len(), 0);
    let closing = stop.orders;
    assert!(state.kill_switch.is_active());
    assert_eq!(state.kill_switch.get_reason(), Some(KillReason::ManualStop));
    assert_eq!(closing.len(), 2);
    assert_eq!(closing[0].symbol, "EURUSD");
    assert_eq!(closing[0].side, OrderSide::Sell);
    assert_eq!(f(closing[0].lots), 1.0);
    assert_eq!(closing[1].symbol, "GBPUSD");
    assert_eq!(closing[1].side, OrderSide::Buy);
    assert_eq!(f(closing[1].lots), 0.5);
    assert_ne!(closing[0].id, closing[1].id);

    let executor = &mut state.order_executor;
    assert!(executor.is_halted());
    for order in executor.pull_pending_submissions() {
        assert_eq!(order.status, OrderStatus::Cancelled);
        assert_eq!(order.updated_at_ms, 20);
    }
    assert_eq!(
        executor.submit_order(another),
        Err("Order submission is disabled".to_string())
    );
    assert_eq!(executor.pull_pending_submissions().len(), 1);
    // A second stop changes nothing
    assert_eq!(stop_trading(&mut state, KillReason::LatencySpike).orders.len(), 0);
    assert_eq!(state.kill_switch.get_reason(), Some(KillReason::ManualStop));
}

#[test]
fn trigger_of_the_kill_switch_stops_the_orders() {
    let mut state = AppState::new(AppConfig::default(), d(10000.0));
    let executor = &mut state.order_executor;
    fill_order(executor, "EURUSD", OrderSide::Buy, 1.0, 1.0, 10);
    let order = executor.create_market_order_at("GBPUSD", OrderSide::Buy, d(0.5), 10);
    executor.submit_order_at(order, 10).unwrap();
    let another = executor.create_market_order_at("GBPUSD", OrderSide::Buy, d(0.5), 10);

    let closing = state.kill_switch.trigger(executor, KillReason::LatencySpike);
    assert!(state.kill_switch.is_active());
    assert_eq!(state.kill_switch.get_reason(), Some(KillReason::LatencySpike));
    assert_eq!(closing.len(), 1);
    assert_eq!(closing[0].symbol, "EURUSD");
    assert_eq!(closing[0].side, OrderSide::Sell);
    assert_eq!(f(closing[0].lots), 1.0);
    let pending = executor.pull_pending_submissions();
    assert_eq!(pending.len(), 1);
    assert_eq!(pending[0].status, OrderStatus::Cancelled);
    assert!(executor.submit_order(another).is_err());

    let again = state.kill_switch.trigger_at(executor, KillReason::ManualStop, 13);
    assert_eq!(again.len(), 0);
    assert_eq!(state.kill_switch.get_reason(), Some(KillReason::LatencySpike));
}

#[test]
fn triggered_switch_stops_the_orders_of_another_executor() {
    let mut switch = KillSwitch::new();
    let mut first = OrderExecutor::new(d(1.0));
    let mut second = OrderExecutor::new(d(1.0));
    fill_order(&mut second, "EURUSD", OrderSide::Buy, 1.0, 1.0, 10);
    assert_eq!(switch.trigger_at(&mut first, KillReason::DrawdownLimit, 11).len(), 0);
    assert_eq!(switch.trigger_at(&mut second, KillReason::ManualStop, 12).len(), 1);
    assert!(second.is_halted());
    assert_eq!(switch.get_reason(), Some(KillReason::DrawdownLimit));
}

#[test]
fn fills_net_to_the_signed_sum() {
    let mut executor = OrderExecutor::new(d(1.0));
    let mut net = 0.0;
    for (side, lots) in [
        (OrderSide::Buy, 0.5),
        (OrderSide::Sell, 0.75),
        (OrderSide::Sell, 0.1),
        (OrderSide::Buy, 2.0),
        (OrderSide::Sell, 1.65),
    ] {
        fill_order(&mut executor, "EURUSD", side, lots, 1.0, 10);
        net += if side == OrderSide::Buy { lots } else { -lots };
        let signed = match executor.get_position("EURUSD") {
            Some(position) if position.side == OrderSide::Buy => f(position.lots),
            Some(position) => -f(position.lots),
            None => 0.0,
        };
        assert_eq!(signed, net);
    }
    assert_eq!(net, 0.0);
    assert!(executor.get_position("EURUSD").is_none());
}

#[test]
fn positions_keep_their_places() {
    let mut executor = OrderExecutor::new(d(1.0));
    for symbol in ["A", "B", "C"] {
        fill_order(&mut executor, symbol, OrderSide::Buy, 1.0, 1.0, 10);
    }
    fill_order(&mut executor, "B", OrderSide::Sell, 2.0, 1.0, 11);
    fill_order(&mut executor, "A", OrderSide::Sell, 1.0, 1.0, 12);
    fill_order(&mut executor, "A", OrderSide::Buy, 1.0, 1.0, 13);
    let book = executor.get_all_positions();
    assert_eq!(book.len(), 3);
    assert_eq!(book.key_at(0), "B");
    assert_eq!(book.key_at(1), "C");
    assert_eq!(book.key_at(2), "A");
}

#[test]
fn position_is_valued_at_its_closing_price() {
    let mut long = Position {
        symbol: "EURUSD".to_string(),
        side: OrderSide::Buy,
        lots: d(2.0),
        entry_price: d(1.0),
        current_price: d(1.0),
        unrealized_pnl: d(0.0),
        opened_at_ms: 0,
        point: d(0.5),
        tick_value: d(3.0),
        digits: 5,
    };
    long.update_pnl(d(2.0), d(2.5));
    assert_eq!(f(long.current_price), 2.0);
    assert_eq!(f(long.unrealized_pnl), (2.0 - 1.0) / 0.5 * 3.0 * 2.0);
    let mut short = long.clone();
    short.side = OrderSide::Sell;
    short.update_pnl(d(2.0), d(2.5));
    assert_eq!(f(short.current_price), 2.5);
    assert_eq!(f(short.unrealized_pnl), (1.0 - 2.5) / 0.5 * 3.0 * 2.0);
    // Without a point size
    long.point = d(0.0);
    long.update_pnl(d(2.0), d(2.5));
    assert_eq!(f(long.unrealized_pnl), 1.0 * 10000.0 * 2.0 * 10.0);
    long.digits = 3;
    long.update_pnl(d(2.0), d(2.5));
    assert_eq!(f(long.unrealized_pnl), 1.0 * 100.0 * 2.0 * 10.0);
    // No move, no profit
    long.point = d(0.00001);
    long.update_pnl(d(1.0), d(2.5));
    assert_eq!(f(long.unrealized_pnl), 0.0);
}

#[test]
fn floating_profit_starts_at_zero() {
    let mut executor = OrderExecutor::new(d(1.0));
    assert_eq!(f(executor.total_unrealized_pnl()), 0.0);
    fill_order(&mut executor, "EURUSD", OrderSide::Buy, 1.0, 1.0, 10);
    fill_order(&mut executor, "GBPUSD", OrderSide::Sell, 0.5, 1.5, 10);
    assert_eq!(f(executor.total_unrealized_pnl()), 0.0);
}
