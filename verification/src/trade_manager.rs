//! Trade management: what each active trade does next, and what the bridge's answers do to it.
use vstd::prelude::*;
use serde_json::Value;
use crate::bridge_client::BridgeResponse;
use crate::clock;
use crate::double;
use crate::double::Double;
use crate::json;
use crate::order_executor::OrderSide;
use crate::risk_enforcer::{Account, RiskEnforcer, TradingRun};
use crate::scanner;
use crate::state_machine::{Direction, SignalType, StateEvent, TradingState, TradingStateMachine};
use crate::text;
use crate::tick_ingestion;
use crate::tick_ingestion::Tick;
use crate::trade_journal;
use crate::trade_journal::JournalEntry;
use crate::{ActiveTrade, AppState, ExitReason};

pub mod laws;

verus! {

/// How long a symbol is left alone after an order on it failed.
pub const EXECUTION_COOLDOWN_MS: u64 = 30000;

/// Slippage allowed in an order, in points.
pub const ORDER_SLIPPAGE: u32 = 10;

/// An order to be executed.
#[derive(Debug)]
pub struct OrderTicket {
    pub symbol: String,
    pub side: OrderSide,
    pub volume: Double,
    pub slippage: u32,
    pub sl: Double,
    pub tp: Double,
}

/// A position to be closed.
#[derive(Debug)]
pub struct CloseTicket {
    pub symbol: String,
    pub side: OrderSide,
    pub volume: Double,
    pub ticket: u64,
}

/// What a trade does next.
#[derive(Debug)]
pub enum Move {
    /// Take a step by itself.
    Apply(StateEvent),
    /// Have an order executed.
    Order(OrderTicket),
    /// Have the position closed.
    Close(CloseTicket),
    /// Nothing.
    Hold,
}

/// What the bridge is asked for.
#[derive(Debug)]
pub enum Request {
    ExecuteOrder(OrderTicket),
    ClosePosition(CloseTicket),
}

/// The account and the market of one symbol.
pub open spec fn account_of(state: AppState, symbol: Seq<char>) -> Account {
    let known = state.tick_ingestion.buffers().contains_key(symbol);
    let buffer = state.tick_ingestion.buffers()[symbol];
    let priced = known && buffer.ticks().len() > 0;
    Account {
        balance: state.account_balance,
        equity: state.account_equity,
        daily_pnl: state.daily_pnl,
        open_positions: state.open_positions_count,
        current_spread: if priced {
            buffer.ticks().last().spread()
        } else {
            Double::of_integer(0)
        },
        avg_spread: if known {
            buffer.average()
        } else {
            Double::of_integer(0)
        },
        current_latency_ms: if priced {
            buffer.ticks().last().latency() as u64
        } else {
            0
        },
    }
}

/// The symbol is gold.
pub open spec fn is_gold(symbol: Seq<char>) -> bool {
    text::occurs(symbol, "XAU"@) || text::occurs(symbol, "GOLD"@)
}

/// The stop distance in pips before the kind of signal is looked at: eight times the average
/// spread, or twenty without a spread, doubled on a slow line, and no less than the minimum,
/// which is higher for wide markets and for gold.
pub open spec fn base_stop(symbol: Seq<char>, account: Account) -> Double {
    let by_spread = if Double::of_integer(0).below(account.current_spread) {
        account.avg_spread.product(Double::of_integer(8))
    } else {
        Double::of_integer(20)
    };
    let by_latency = if account.current_latency_ms > 100 {
        by_spread.product(Double::of_integer(2))
    } else {
        by_spread
    };
    let floored = by_latency.larger(
        if Double::of_integer(5).below(account.avg_spread) {
            Double::of_integer(100)
        } else {
            Double::of_integer(30)
        },
    );
    if is_gold(symbol) {
        floored.larger(Double::of_integer(300))
    } else {
        floored
    }
}

/// The stop distance in pips. A reversion gets a fifth more.
pub open spec fn stop_distance(
    symbol: Seq<char>,
    account: Account,
    signal_type: SignalType,
) -> Double {
    let base = base_stop(symbol, account);
    match signal_type {
        SignalType::Momentum => base,
        SignalType::Reversion => base.product(Double::ratio(12, 10)),
    }
}

/// The trades other than the one with this id.
pub open spec fn others(trades: Seq<ActiveTrade>, id: u64) -> Seq<ActiveTrade> {
    trades.filter(|trade: ActiveTrade| trade.id != id)
}

/// Whether a qualifying trade may go on to its order: not without a price, not next to
/// losing trades in play on its symbol, and not beyond a risk limit.
pub open spec fn may_enter(state: AppState, trade: ActiveTrade) -> bool {
    let rest = others(state.active_trades@, trade.id);
    let count = scanner::in_play_on(rest, trade.symbol@);
    let profit = scanner::profit_on(rest, trade.symbol@);
    &&& state.tick_ingestion.latest_of(trade.symbol@) is Some
    &&& !(count > 0 && profit.below(Double::of_integer(0)))
    &&& state.risk_enforcer.entry_verdict(
        trade.symbol@,
        account_of(state, trade.symbol@),
        count as u32,
    ) is Ok
}

/// The order of a trade that is ready to enter.
pub open spec fn order_for(
    symbol: String,
    tick: Option<Tick>,
    direction: Direction,
    lots: Double,
    sl_pips: Double,
) -> OrderTicket {
    let multiplier = match tick {
        Some(tick) => tick_ingestion::pips_per_unit(tick.digits),
        None => Double::of_integer(1),
    };
    let bid = match tick {
        Some(tick) => tick.bid,
        None => Double::of_integer(0),
    };
    let ask = match tick {
        Some(tick) => tick.ask,
        None => Double::of_integer(0),
    };
    let stop = sl_pips.quotient(multiplier);
    let target = sl_pips.product(Double::of_integer(2)).quotient(multiplier);
    match direction {
        Direction::Long => OrderTicket {
            symbol,
            side: OrderSide::Buy,
            volume: lots,
            slippage: ORDER_SLIPPAGE,
            sl: ask.difference(stop),
            tp: ask.sum(target),
        },
        Direction::Short => OrderTicket {
            symbol,
            side: OrderSide::Sell,
            volume: lots,
            slippage: ORDER_SLIPPAGE,
            sl: bid.sum(stop),
            tp: bid.difference(target),
        },
    }
}

/// The close of a position: its lots on the other side.
pub open spec fn close_for(
    symbol: String,
    direction: Direction,
    lots: Double,
    ticket: u64,
) -> CloseTicket {
    CloseTicket {
        symbol,
        side: match direction {
            Direction::Long => OrderSide::Sell,
            Direction::Short => OrderSide::Buy,
        },
        volume: lots,
        ticket,
    }
}

/// What a trade does next at time `now`.
pub open spec fn planned(state: AppState, trade: ActiveTrade, now: u64) -> Move {
    match trade.state_machine.state() {
        TradingState::Qualifying { signal_type, .. } => if may_enter(state, trade) {
            let account = account_of(state, trade.symbol@);
            Move::Apply(
                StateEvent::FiltersPass {
                    lots: state.risk_enforcer.limits().initial_lots(account.equity),
                    sl_pips: stop_distance(trade.symbol@, account, signal_type),
                },
            )
        } else {
            Move::Apply(StateEvent::FiltersReject)
        },
        TradingState::EntryReady { direction, calculated_lots, sl_pips, .. } =>
            if trade.pending_req_id is Some || state.kill_switch.active() {
            Move::Hold
        } else {
            Move::Order(
                order_for(
                    trade.symbol,
                    state.tick_ingestion.latest_of(trade.symbol@),
                    direction,
                    calculated_lots,
                    sl_pips,
                ),
            )
        },
        TradingState::Exiting { direction, lots, ticket, .. } => if trade.pending_req_id is Some {
            Move::Hold
        } else {
            Move::Close(close_for(trade.symbol, direction, lots, ticket))
        },
        TradingState::Cooldown { until_ms } => if now >= until_ms {
            Move::Apply(StateEvent::CooldownComplete)
        } else {
            Move::Hold
        },
        _ => Move::Hold,
    }
}

fn latest_tick(state: &AppState, symbol: &str) -> (r: Option<Tick>)
    ensures
        r == state.tick_ingestion.latest_of(symbol@),
{
    match state.tick_ingestion.get_buffer(symbol) {
        Some(buffer) => {
            let latest: Vec<&Tick> = buffer.latest(1);
            if latest.len() > 0 {
                Some(latest[0].clone())
            } else {
                None
            }
        },
        None => None,
    }
}

fn account_snapshot(state: &AppState, symbol: &str) -> (r: Account)
    ensures
        r == account_of(*state, symbol@),
{
    let zero: Double = Double::from_u64(0);
    let (spread, avg_spread, latency): (Double, Double, i64) = match state.tick_ingestion.get_buffer(
        symbol,
    ) {
        Some(buffer) => (
            match buffer.current_spread() {
                Some(spread) => spread,
                None => zero,
            },
            buffer.average_spread(),
            match buffer.current_latency_ms() {
                Some(latency) => latency,
                None => 0,
            },
        ),
        None => (zero, zero, 0),
    };
    Account {
        balance: state.account_balance,
        equity: state.account_equity,
        daily_pnl: state.daily_pnl,
        open_positions: state.open_positions_count,
        current_spread: spread,
        avg_spread,
        current_latency_ms: latency as u64,
    }
}

/// Stop distance for a new trade.
fn choose_stop(symbol: &str, account: &Account, signal_type: SignalType) -> (r: Double)
    ensures
        r == stop_distance(symbol@, *account, signal_type),
{
    let base_min_sl: Double = if account.current_spread.is_above(Double::from_u64(0)) {
        account.avg_spread.times(Double::from_u64(8))
    } else {
        Double::from_u64(20)
    };
    let mut sl_pips: Double = if account.current_latency_ms > 100 {
        base_min_sl.times(Double::from_u64(2))
    } else {
        base_min_sl
    };
    sl_pips =
    sl_pips.max(
        if account.avg_spread.is_above(Double::from_u64(5)) {
            Double::from_u64(100)
        } else {
            Double::from_u64(30)
        },
    );
    if text::contains(symbol, "XAU") || text::contains(symbol, "GOLD") {
        sl_pips = sl_pips.max(Double::from_u64(300));
    }
    if signal_type == SignalType::Reversion {
        sl_pips = sl_pips.times(Double::from_ratio(12, 10));
    }
    sl_pips
}

/// The other trades in play on a symbol: how many, and the profit of the runs there.
fn survey_others(trades: &Vec<ActiveTrade>, symbol: &String, id: u64) -> (r: (usize, Double))
    ensures
        r.0 == scanner::in_play_on(others(trades@, id), symbol@),
        r.1 == scanner::profit_on(others(trades@, id), symbol@),
{
    let ghost apart = |trade: ActiveTrade| trade.id != id;
    let ghost kept = |trade: ActiveTrade| scanner::in_play(trade) && trade.symbol@ == symbol@;
    let mut count: usize = 0;
    let mut profit: Double = Double::from_u64(0);
    let mut i: usize = 0;
    assert(trades@.take(0).filter(apart) =~= Seq::<ActiveTrade>::empty()) by {
        reveal(Seq::filter);
    }
    assert(Seq::<ActiveTrade>::empty().filter(kept) =~= Seq::<ActiveTrade>::empty()) by {
        reveal(Seq::filter);
    }
    while i < trades.len()
        invariant
            i <= trades@.len(),
            apart == (|trade: ActiveTrade| trade.id != id),
            kept == (|trade: ActiveTrade| scanner::in_play(trade) && trade.symbol@ == symbol@),
            count == trades@.take(i as int).filter(apart).filter(kept).len(),
            profit == scanner::profit_on(trades@.take(i as int).filter(apart), symbol@),
            count <= i,
        decreases trades.len() - i,
    {
        let ghost seen = trades@.take(i as int).filter(apart);
        proof {
            reveal(Seq::filter);
            assert(trades@.take(i + 1).drop_last() =~= trades@.take(i as int));
            assert(seen.push(trades@[i as int]).drop_last() =~= seen);
        }
        if trades[i].id != id {
            assert(trades@.take(i + 1).filter(apart) == seen.push(trades@[i as int]));
            if trades[i].symbol == *symbol {
                if scanner::is_in_play(&trades[i]) {
                    count = count + 1;
                }
                if let Some(run) = &trades[i].active_run {
                    profit = profit.plus(run.total_pnl());
                }
            }
        }
        i = i + 1;
    }
    assert(trades@.take(i as int) =~= trades@);
    (count, profit)
}

/// The next event of a qualifying trade.
fn qualify(state: &AppState, trade: &ActiveTrade, signal_type: SignalType) -> (r: StateEvent)
    requires
        trade.state_machine.state() is Qualifying,
        trade.state_machine.state()->signal_type == signal_type,
    ensures
        planned(*state, *trade, 0) == Move::Apply(r),
{
    let account: Account = account_snapshot(state, trade.symbol.as_str());
    if latest_tick(state, trade.symbol.as_str()).is_none() {
        return StateEvent::FiltersReject;
    }
    let (count, profit): (usize, Double) = survey_others(
        &state.active_trades,
        &trade.symbol,
        trade.id,
    );
    // Loss guard: existing trades on this symbol are under water
    if count > 0 && profit.is_below(Double::from_u64(0)) {
        return StateEvent::FiltersReject;
    }
    match state.risk_enforcer.can_enter(trade.symbol.as_str(), &account, count as u32) {
        Ok(_) => StateEvent::FiltersPass {
            lots: state.risk_enforcer.calculate_initial_lots(account.equity),
            sl_pips: choose_stop(trade.symbol.as_str(), &account, signal_type),
        },
        Err(_) => StateEvent::FiltersReject,
    }
}

fn write_order(
    symbol: &String,
    tick: Option<Tick>,
    direction: Direction,
    lots: Double,
    sl_pips: Double,
) -> (r: OrderTicket)
    ensures
        r == order_for(*symbol, tick, direction, lots, sl_pips),
{
    let (multiplier, bid, ask): (Double, Double, Double) = match tick {
        Some(tick) => (tick.pip_multiplier(), tick.bid, tick.ask),
        None => (Double::from_u64(1), Double::from_u64(0), Double::from_u64(0)),
    };
    let tp_pips: Double = sl_pips.times(Double::from_u64(2));
    let (side, sl, tp): (OrderSide, Double, Double) = match direction {
        Direction::Long => (
            OrderSide::Buy,
            ask.minus(sl_pips.over(multiplier)),
            ask.plus(tp_pips.over(multiplier)),
        ),
        Direction::Short => (
            OrderSide::Sell,
            bid.plus(sl_pips.over(multiplier)),
            bid.minus(tp_pips.over(multiplier)),
        ),
    };
    OrderTicket { symbol: symbol.clone(), side, volume: lots, slippage: ORDER_SLIPPAGE, sl, tp }
}

fn write_close(symbol: &String, direction: Direction, lots: Double, ticket: u64) -> (r: CloseTicket)
    ensures
        r == close_for(*symbol, direction, lots, ticket),
{
    let side: OrderSide = match direction {
        Direction::Long => OrderSide::Sell,
        Direction::Short => OrderSide::Buy,
    };
    CloseTicket { symbol: symbol.clone(), side, volume: lots, ticket }
}

/// What trade `i` does next at time `now`.
pub fn plan(state: &AppState, i: usize, now: u64) -> (r: Move)
    requires
        i < state.active_trades@.len(),
    ensures
        r == planned(*state, state.active_trades@[i as int], now),
{
    let trade: &ActiveTrade = &state.active_trades[i];
    match trade.state_machine.current_state() {
        TradingState::Qualifying { signal_type, .. } => Move::Apply(
            qualify(state, trade, signal_type),
        ),
        TradingState::EntryReady { direction, calculated_lots, sl_pips, .. } => {
            // An order that is in flight is not sent again, and none is sent after the kill
            // switch was triggered
            if trade.pending_req_id.is_some() || state.kill_switch.is_active() {
                return Move::Hold;
            }
            let tick: Option<Tick> = latest_tick(state, trade.symbol.as_str());
            Move::Order(write_order(&trade.symbol, tick, direction, calculated_lots, sl_pips))
        },
        TradingState::Exiting { direction, lots, ticket, .. } => {
            // A close that is in flight is not sent again
            if trade.pending_req_id.is_some() {
                return Move::Hold;
            }
            Move::Close(write_close(&trade.symbol, direction, lots, ticket))
        },
        TradingState::Cooldown { until_ms } => {
            if now >= until_ms {
                Move::Apply(StateEvent::CooldownComplete)
            } else {
                Move::Hold
            }
        },
        _ => Move::Hold,
    }
}

/// The price at which a position closes.
pub open spec fn closing_price(direction: Direction, tick: Tick) -> Double {
    match direction {
        Direction::Long => tick.bid,
        Direction::Short => tick.ask,
    }
}

/// How far a position is in profit, in pips.
pub open spec fn gain_in_pips(direction: Direction, entry_price: Double, tick: Tick) -> Double {
    let price = closing_price(direction, tick);
    let move_up = match direction {
        Direction::Long => price.difference(entry_price),
        Direction::Short => entry_price.difference(price),
    };
    move_up.product(tick_ingestion::pips_per_unit(tick.digits))
}

/// How far a position is in profit, in money: the move in points times tick value and lots,
/// with the sign of the pips. Without a point size it is ten a pip and lot.
pub open spec fn gain_in_money(
    direction: Direction,
    entry_price: Double,
    lots: Double,
    tick: Tick,
) -> Double {
    let pips = gain_in_pips(direction, entry_price, tick);
    if Double::of_integer(0).below(tick.point) {
        closing_price(direction, tick).difference(entry_price).quotient(
            tick.point,
        ).absolute().product(tick.tick_value).product(lots).product(pips.sign_of())
    } else {
        pips.product(lots).product(Double::of_integer(10))
    }
}

/// The price has not moved for longer than the symbol's timeout. A clock that stands before
/// the last move has measured nothing.
pub open spec fn stalled(enforcer: RiskEnforcer, run: TradingRun, now: u64) -> bool {
    now - run.last_price_change_ms > enforcer.stall_timeout_of(run.symbol@)
}

/// What an open position calls for: its target reached, three times its stop distance lost,
/// or, while it is in profit, a reversal or a stall.
pub open spec fn exit_called(
    enforcer: RiskEnforcer,
    run: TradingRun,
    pips: Double,
    sl_pips: Double,
    tp_pips: Double,
    multiplier: Double,
    now: u64,
) -> Option<StateEvent> {
    if tp_pips.at_most(pips) {
        Some(StateEvent::TakeProfitHit)
    } else if pips.at_most(sl_pips.product(Double::of_integer(3)).negated()) {
        Some(StateEvent::StopLossHit)
    } else if Double::of_integer(0).below(pips) {
        if enforcer.limits().reversed(run, multiplier) {
            Some(StateEvent::ReversalDetected)
        } else if stalled(enforcer, run, now) {
            Some(StateEvent::StallTimeout)
        } else {
            None
        }
    } else {
        None
    }
}

/// The machine of a trade takes an event, if there is one, at time `at`.
pub open spec fn machine_takes(
    before: TradingStateMachine,
    event: Option<StateEvent>,
    at: u64,
    after: TradingStateMachine,
) -> bool {
    match event {
        Some(event) => before.steps_to(event, at, after, before.answer(event, at)),
        None => after == before,
    }
}

/// Looking after the position of a trade gives `after`: the run is started where there is
/// none yet, it follows the latest price, and the trade exits where that calls for it.
pub open spec fn manages(
    before: ActiveTrade,
    tick: Option<Tick>,
    enforcer: RiskEnforcer,
    now: u64,
    at: u64,
    after: ActiveTrade,
) -> bool {
    match before.state_machine.state() {
        TradingState::PositionOpen {
            direction,
            entry_price,
            current_lots,
            sl_pips,
            tp_pips,
            entry_time_ms,
            ..
        } => {
            let run = match before.active_run {
                Some(run) => run,
                None => TradingRun::started(
                    before.symbol,
                    entry_price,
                    current_lots,
                    entry_time_ms,
                    sl_pips,
                    tp_pips,
                ),
            };
            &&& after.id == before.id
            &&& after.symbol == before.symbol
            &&& after.pending_req_id == before.pending_req_id
            &&& match tick {
                Some(tick) => {
                    let next = run.repriced(
                        gain_in_money(direction, entry_price, current_lots, tick),
                        now,
                    );
                    &&& after.active_run == Some(next)
                    &&& machine_takes(
                        before.state_machine,
                        exit_called(
                            enforcer,
                            next,
                            gain_in_pips(direction, entry_price, tick),
                            sl_pips,
                            tp_pips,
                            tick_ingestion::pips_per_unit(tick.digits),
                            now,
                        ),
                        at,
                        after.state_machine,
                    )
                },
                None => {
                    &&& after.active_run == Some(run)
                    &&& after.state_machine == before.state_machine
                },
            }
        },
        _ => after == before,
    }
}

/// Decide whether an open position is to be closed.
fn find_exit(
    enforcer: &RiskEnforcer,
    run: &TradingRun,
    pips: Double,
    sl_pips: Double,
    tp_pips: Double,
    multiplier: Double,
    now: u64,
) -> (r: Option<StateEvent>)
    ensures
        r == exit_called(*enforcer, *run, pips, sl_pips, tp_pips, multiplier, now),
{
    if pips.is_at_least(tp_pips) {
        Some(StateEvent::TakeProfitHit)
    } else if pips.is_at_most(sl_pips.times(Double::from_u64(3)).negate()) {
        // Emergency stop at three times the normal distance
        Some(StateEvent::StopLossHit)
    } else if pips.is_above(Double::from_u64(0)) {
        // Early exits only while the trade is in profit
        if enforcer.check_reversal(run, multiplier) {
            Some(StateEvent::ReversalDetected)
        } else if now >= run.last_price_change_ms && enforcer.check_stall(run, now) {
            Some(StateEvent::StallTimeout)
        } else {
            None
        }
    } else {
        // Hold the trade and wait for recovery
        None
    }
}

/// Look after the position of one trade, at the prices of time `now`; an exit is taken at
/// time `at`.
fn manage_trade(
    trade: &mut ActiveTrade,
    tick: Option<Tick>,
    enforcer: &RiskEnforcer,
    now: u64,
    at: u64,
)
    ensures
        manages(*old(trade), tick, *enforcer, now, at, *final(trade)),
{
    if let TradingState::PositionOpen {
        direction,
        entry_price,
        current_lots,
        sl_pips,
        tp_pips,
        entry_time_ms,
        ..
    } = trade.state_machine.current_state() {
        let mut run: TradingRun = match &trade.active_run {
            Some(run) => run.clone(),
            None => TradingRun::new(
                trade.symbol.clone(),
                entry_price,
                current_lots,
                entry_time_ms,
                sl_pips,
                tp_pips,
            ),
        };
        if let Some(tick) = tick {
            let multiplier: Double = tick.pip_multiplier();
            let current_price: Double = match direction {
                Direction::Long => tick.bid,
                Direction::Short => tick.ask,
            };
            let pips: Double = match direction {
                Direction::Long => current_price.minus(entry_price).times(multiplier),
                Direction::Short => entry_price.minus(current_price).times(multiplier),
            };
            let pnl: Double = if tick.point.is_above(Double::from_u64(0)) {
                current_price.minus(entry_price).over(tick.point).abs().times(
                    tick.tick_value,
                ).times(current_lots).times(pips.signum())
            } else {
                pips.times(current_lots).times(Double::from_u64(10))
            };
            run.update_price(current_price, pnl, now);
            match find_exit(enforcer, &run, pips, sl_pips, tp_pips, multiplier, now) {
                Some(event) => {
                    let _ = trade.state_machine.process_event_at(event, at);
                },
                None => {},
            }
        }
        trade.active_run = Some(run);
    }
}

/// A trade takes an event, if there is one, at time `at`, and its position is looked after.
pub open spec fn advances(
    before: ActiveTrade,
    event: Option<StateEvent>,
    tick: Option<Tick>,
    enforcer: RiskEnforcer,
    now: u64,
    at: u64,
    after: ActiveTrade,
) -> bool {
    exists|middle: ActiveTrade|
        {
            &&& machine_takes(before.state_machine, event, at, middle.state_machine)
            &&& middle.id == before.id
            &&& middle.symbol == before.symbol
            &&& middle.active_run == before.active_run
            &&& middle.pending_req_id == before.pending_req_id
            &&& #[trigger] manages(middle, tick, enforcer, now, at, after)
        }
}

/// The state `after` differs from `before` in trade `i` alone.
pub open spec fn same_but_trade(before: AppState, i: int, after: AppState) -> bool {
    &&& 0 <= i < before.active_trades@.len()
    &&& after.active_trades@ == before.active_trades@.update(i, after.active_trades@[i])
    &&& after == (AppState { active_trades: after.active_trades, ..before })
}

/// Trade `i` takes an event, if there is one, and its position is looked after.
pub open spec fn trade_advances(
    before: AppState,
    i: int,
    event: Option<StateEvent>,
    now: u64,
    at: u64,
    after: AppState,
) -> bool {
    &&& same_but_trade(before, i, after)
    &&& advances(
        before.active_trades@[i],
        event,
        before.tick_ingestion.latest_of(before.active_trades@[i].symbol@),
        before.risk_enforcer,
        now,
        at,
        after.active_trades@[i],
    )
}

fn advance_trade(
    state: &mut AppState,
    i: usize,
    event: Option<StateEvent>,
    now: u64,
    at: u64,
)
    requires
        i < old(state).active_trades@.len(),
    ensures
        trade_advances(*old(state), i as int, event, now, at, *final(state)),
        old(state).wf() ==> final(state).wf(),
{
    let tick: Option<Tick> = latest_tick(state, state.active_trades[i].symbol.as_str());
    if let Some(event) = event {
        let _ = state.active_trades[i].state_machine.process_event_at(event, at);
    }
    let ghost middle = state.active_trades@[i as int];
    manage_trade(&mut state.active_trades[i], tick, &state.risk_enforcer, now, at);
    assert(manages(middle, tick, state.risk_enforcer, now, at, state.active_trades@[i as int]));
    assert(state.active_trades@ =~= old(state).active_trades@.update(
        i as int,
        state.active_trades@[i as int],
    ));
}

/// The event of a move that a trade makes by itself.
pub open spec fn own_event(next: Move) -> Option<StateEvent> {
    match next {
        Move::Apply(event) => Some(event),
        _ => None,
    }
}

/// The request of a move that a trade cannot make by itself.
pub open spec fn own_request(next: Move) -> Option<Request> {
    match next {
        Move::Order(order) => Some(Request::ExecuteOrder(order)),
        Move::Close(close) => Some(Request::ClosePosition(close)),
        _ => None,
    }
}

/// Trade `i` needs nothing from the bridge, and its update at time `now`, with its events
/// taken at time `at`, gives `after`.
pub open spec fn updates(before: AppState, i: int, now: u64, at: u64, after: AppState) -> bool {
    let next = planned(before, before.active_trades@[i], now);
    &&& own_request(next) is None
    &&& trade_advances(before, i, own_event(next), now, at, after)
}

/// The same, with the events taken at the time of a reading of the system clock.
pub open spec fn updates_by(
    before: AppState,
    i: int,
    now: u64,
    reading: std::time::SystemTime,
    after: AppState,
) -> bool {
    updates(before, i, now, clock::timestamp_of(clock::elapsed(reading)), after)
}

/// The trades `from` up to `to` need nothing from the bridge when their turns come, and their
/// updates at time `now`, one after the other, give `after`.
pub open spec fn passes(before: AppState, from: int, to: int, now: u64, after: AppState) -> bool
    decreases to - from,
{
    if to <= from {
        after == before
    } else {
        let last = to - 1;
        exists|middle: AppState, reading: std::time::SystemTime|
            passes(before, from, last, now, middle) && #[trigger] updates_by(
                middle,
                last,
                now,
                reading,
                after,
            )
    }
}

proof fn lemma_pass_goes_on(
    before: AppState,
    from: int,
    to: int,
    now: u64,
    middle: AppState,
    reading: std::time::SystemTime,
    after: AppState,
)
    requires
        from <= to,
        passes(before, from, to, now, middle),
        updates_by(middle, to, now, reading, after),
    ensures
        passes(before, from, to + 1, now, after),
{
    reveal_with_fuel(passes, 2);
    let last = (to + 1) - 1;
    assert(passes(before, from, last, now, middle) && updates_by(middle, last, now, reading, after));
}

/// Update trade `i` at time `now`, with its events taken at time `at`. A trade that needs the
/// bridge is left as it is, and what it asks for is returned.
pub fn update_trade_at(state: &mut AppState, i: usize, now: u64, at: u64) -> (r: Option<Request>)
    requires
        i < old(state).active_trades@.len(),
    ensures
        r == own_request(planned(*old(state), old(state).active_trades@[i as int], now)),
        r is Some ==> *final(state) == *old(state),
        r is None ==> updates(*old(state), i as int, now, at, *final(state)),
        old(state).wf() ==> final(state).wf(),
{
    match plan(state, i, now) {
        Move::Apply(event) => {
            advance_trade(state, i, Some(event), now, at);
            None
        },
        Move::Order(order) => Some(Request::ExecuteOrder(order)),
        Move::Close(close) => Some(Request::ClosePosition(close)),
        Move::Hold => {
            advance_trade(state, i, None, now, at);
            None
        },
    }
}

/// Updates the active trades from number `from` on, at time `now`, up to the first one that
/// needs the bridge: its number and what it asks for are returned. The update goes on after
/// it once the answer is settled.
pub fn update_active_trades(state: &mut AppState, from: usize, now: u64) -> (r: Option<
    (usize, Request),
>)
    requires
        from <= old(state).active_trades@.len(),
    ensures
        match r {
            Some((i, request)) => {
                &&& from <= i < old(state).active_trades@.len()
                &&& passes(*old(state), from as int, i as int, now, *final(state))
                &&& own_request(
                    planned(*final(state), final(state).active_trades@[i as int], now),
                ) == Some(request)
            },
            None => passes(
                *old(state),
                from as int,
                old(state).active_trades@.len() as int,
                now,
                *final(state),
            ),
        },
        final(state).active_trades@.len() == old(state).active_trades@.len(),
        old(state).wf() ==> final(state).wf(),
{
    let mut i: usize = from;
    while i < state.active_trades.len()
        invariant
            from <= i <= state.active_trades@.len(),
            state.active_trades@.len() == old(state).active_trades@.len(),
            passes(*old(state), from as int, i as int, now, *state),
            old(state).wf() ==> state.wf(),
        decreases state.active_trades@.len() - i,
    {
        let ghost before = *state;
        let at: u64 = clock::now_ms();
        if let Some(request) = update_trade_at(state, i, now, at) {
            return Some((i, request));
        }
        proof {
            let reading = choose|reading: std::time::SystemTime|
                at == clock::timestamp_of(#[trigger] clock::elapsed(reading));
            lemma_pass_goes_on(*old(state), from as int, i as int, now, before, reading, *state);
        }
        i = i + 1;
    }
    None
}

/// The answer to an order, as far as it is looked at.
#[derive(Debug)]
pub struct OrderReply {
    /// Empty where the answer names none.
    pub status: String,
    /// The id under which a pending order will be answered.
    pub req_id: Option<String>,
    pub price: Option<Double>,
    pub ticket: Option<u64>,
}

/// The answer to the closing of a position, as far as it is looked at.
#[derive(Debug)]
pub struct CloseReply {
    /// Empty where the answer names none.
    pub status: String,
    /// The id under which a pending close will be answered.
    pub req_id: Option<String>,
}

/// The status that an answer names.
pub open spec fn status_in(answer: Value) -> Seq<char> {
    match json::text_in(answer, "status"@) {
        Some(status) => status,
        None => Seq::empty(),
    }
}

/// The request id that an answer names.
pub open spec fn names_id(answer: Value, req_id: Option<String>) -> bool {
    json::text_in(answer, "req_id"@) == match req_id {
        Some(id) => Some(id@),
        None => None::<Seq<char>>,
    }
}

fn status_of(answer: &Value) -> (r: String)
    ensures
        r@ == status_in(*answer),
{
    match json::text_at(answer, "status") {
        Some(status) => status,
        None => String::new(),
    }
}

impl OrderReply {
    /// Read the bridge's answer to an order.
    pub fn read(answer: &Value) -> (r: OrderReply)
        ensures
            r.status@ == status_in(*answer),
            names_id(*answer, r.req_id),
            r.price == match json::member(*answer, "data"@) {
                Some(data) => json::number_in(data, "price"@),
                None => None::<Double>,
            },
            r.ticket == match json::member(*answer, "data"@) {
                Some(data) => json::count_in(data, "ticket"@),
                None => None::<u64>,
            },
    {
        let status: String = status_of(answer);
        let req_id: Option<String> = json::text_at(answer, "req_id");
        match json::get(answer, "data") {
            Some(data) => OrderReply {
                status,
                req_id,
                price: json::number_at(data, "price"),
                ticket: json::count_at(data, "ticket"),
            },
            None => OrderReply { status, req_id, price: None, ticket: None },
        }
    }
}

impl CloseReply {
    /// Read the bridge's answer to the closing of a position.
    pub fn read(answer: &Value) -> (r: CloseReply)
        ensures
            r.status@ == status_in(*answer),
            names_id(*answer, r.req_id),
    {
        CloseReply { status: status_of(answer), req_id: json::text_at(answer, "req_id") }
    }
}

/// The event that the answer to an order is for the trade. A pending order is none yet. No
/// answer at all counts as a refusal.
pub open spec fn order_event(reply: Option<OrderReply>) -> Option<StateEvent> {
    match reply {
        Some(reply) => if reply.status@ == "pending"@ {
            None
        } else if reply.status@ == "ok"@ && reply.price is Some && reply.ticket is Some {
            Some(StateEvent::OrderFilled { price: reply.price->0, ticket: reply.ticket->0 })
        } else {
            Some(StateEvent::OrderTimeout)
        },
        None => Some(StateEvent::OrderTimeout),
    }
}

/// The order was refused: the answer is neither a fill nor a promise of one.
pub open spec fn order_refused(reply: Option<OrderReply>) -> bool {
    match reply {
        Some(reply) => reply.status@ != "pending"@ && reply.status@ != "ok"@,
        None => true,
    }
}

/// End of the cooldown that starts at time `now`.
pub open spec fn cooldown_end(now: u64) -> u64 {
    if now + EXECUTION_COOLDOWN_MS <= u64::MAX {
        (now + EXECUTION_COOLDOWN_MS) as u64
    } else {
        u64::MAX
    }
}

/// The state with the request id of trade `i` replaced by that of a pending answer.
pub open spec fn awaits(before: AppState, i: int, req_id: Option<String>, after: AppState) -> bool {
    &&& same_but_trade(before, i, after)
    &&& after.active_trades@[i] == (ActiveTrade {
        pending_req_id: req_id,
        ..before.active_trades@[i]
    })
}

/// The state `after` differs from `before` in that the symbol of trade `i` is on hold.
pub open spec fn holds_symbol(before: AppState, i: int, now: u64, after: AppState) -> bool {
    &&& after.execution_cooldowns@ == before.execution_cooldowns@.insert(
        before.active_trades@[i].symbol@,
        cooldown_end(now),
    )
    &&& after == (AppState { execution_cooldowns: after.execution_cooldowns, ..before })
}

/// Settling the answer to the order of trade `i` gives `after`: a pending order waits under
/// its id, a filled one opens the position, an incomplete answer gives the trade up, and a
/// refusal also puts the symbol on hold.
pub open spec fn order_settles(
    before: AppState,
    i: int,
    reply: Option<OrderReply>,
    now: u64,
    at: u64,
    after: AppState,
) -> bool {
    exists|middle: AppState|
        {
            &&& if order_event(reply) is None {
                awaits(before, i, reply->0.req_id, middle)
            } else if order_refused(reply) {
                holds_symbol(before, i, now, middle)
            } else {
                middle == before
            }
            &&& #[trigger] trade_advances(middle, i, order_event(reply), now, at, after)
        }
}

/// Settle the answer to the order of trade `i`, by the wall clock. No answer stands for a
/// request that failed.
pub fn settle_order(state: &mut AppState, i: usize, reply: Option<OrderReply>, now: u64)
    requires
        i < old(state).active_trades@.len(),
    ensures
        exists|reading: std::time::SystemTime|
            order_settles(
                *old(state),
                i as int,
                reply,
                now,
                clock::timestamp_of(#[trigger] clock::elapsed(reading)),
                *final(state),
            ),
        old(state).wf() ==> final(state).wf(),
{
    let at: u64 = clock::now_ms();
    settle_order_at(state, i, reply, now, at)
}

/// Settle the answer to the order of trade `i`, with its events taken at time `at`.
pub fn settle_order_at(
    state: &mut AppState,
    i: usize,
    reply: Option<OrderReply>,
    now: u64,
    at: u64,
)
    requires
        i < old(state).active_trades@.len(),
    ensures
        order_settles(*old(state), i as int, reply, now, at, *final(state)),
        old(state).wf() ==> final(state).wf(),
{
    let event: Option<StateEvent> = match reply {
        Some(reply) => {
            if reply.status == "pending".to_owned() {
                state.active_trades[i].pending_req_id = reply.req_id;
                assert(state.active_trades@ =~= old(state).active_trades@.update(
                    i as int,
                    state.active_trades@[i as int],
                ));
                None
            } else if reply.status == "ok".to_owned() {
                match (reply.price, reply.ticket) {
                    (Some(price), Some(ticket)) => Some(StateEvent::OrderFilled { price, ticket }),
                    _ => Some(StateEvent::OrderTimeout),
                }
            } else {
                hold_symbol(state, i, now);
                Some(StateEvent::OrderTimeout)
            }
        },
        None => {
            hold_symbol(state, i, now);
            Some(StateEvent::OrderTimeout)
        },
    };
    let ghost middle = *state;
    advance_trade(state, i, event, now, at);
    assert(trade_advances(middle, i as int, order_event(reply), now, at, *state));
}

/// Leave the symbol of trade `i` alone for a while.
fn hold_symbol(state: &mut AppState, i: usize, now: u64)
    requires
        i < old(state).active_trades@.len(),
    ensures
        holds_symbol(*old(state), i as int, now, *final(state)),
        old(state).wf() ==> final(state).wf(),
{
    let cooldown_until: u64 = now.saturating_add(EXECUTION_COOLDOWN_MS);
    let symbol: String = state.active_trades[i].symbol.clone();
    state.execution_cooldowns.insert(symbol, cooldown_until);
}

/// Settling the answer to the close of trade `i` gives `after`: a pending close waits under
/// its id, and any other answer, or none, counts as closed.
pub open spec fn close_settles(
    before: AppState,
    i: int,
    reply: Option<CloseReply>,
    now: u64,
    at: u64,
    after: AppState,
) -> bool {
    if reply is Some && reply->0.status@ == "pending"@ {
        exists|middle: AppState|
            awaits(before, i, reply->0.req_id, middle) && #[trigger] trade_advances(
                middle,
                i,
                None,
                now,
                at,
                after,
            )
    } else {
        trade_advances(before, i, Some(StateEvent::PositionClosed), now, at, after)
    }
}

/// Settle the answer to the close of trade `i`, by the wall clock. No answer stands for a
/// request that failed.
pub fn settle_close(state: &mut AppState, i: usize, reply: Option<CloseReply>, now: u64)
    requires
        i < old(state).active_trades@.len(),
    ensures
        exists|reading: std::time::SystemTime|
            close_settles(
                *old(state),
                i as int,
                reply,
                now,
                clock::timestamp_of(#[trigger] clock::elapsed(reading)),
                *final(state),
            ),
        old(state).wf() ==> final(state).wf(),
{
    let at: u64 = clock::now_ms();
    settle_close_at(state, i, reply, now, at)
}

/// Settle the answer to the close of trade `i`, with its events taken at time `at`.
pub fn settle_close_at(
    state: &mut AppState,
    i: usize,
    reply: Option<CloseReply>,
    now: u64,
    at: u64,
)
    requires
        i < old(state).active_trades@.len(),
    ensures
        close_settles(*old(state), i as int, reply, now, at, *final(state)),
        old(state).wf() ==> final(state).wf(),
{
    if let Some(reply) = reply {
        if reply.status == "pending".to_owned() {
            state.active_trades[i].pending_req_id = reply.req_id;
            assert(state.active_trades@ =~= old(state).active_trades@.update(
                i as int,
                state.active_trades@[i as int],
            ));
            let ghost middle = *state;
            advance_trade(state, i, None, now, at);
            assert(trade_advances(middle, i as int, None, now, at, *state));
            return;
        }
    }
    advance_trade(state, i, Some(StateEvent::PositionClosed), now, at);
}

/// The close of the position that a trade holds. A trade with a request in flight has none.
pub open spec fn close_of(trade: ActiveTrade) -> Option<CloseTicket> {
    if trade.pending_req_id is Some {
        None
    } else {
        match trade.state_machine.state() {
            TradingState::PositionOpen { direction, current_lots, ticket, .. } => Some(
                close_for(trade.symbol, direction, current_lots, ticket),
            ),
            TradingState::Scaling { direction, current_lots, ticket, .. } => Some(
                close_for(trade.symbol, direction, current_lots, ticket),
            ),
            TradingState::Exiting { direction, lots, ticket, .. } => Some(
                close_for(trade.symbol, direction, lots, ticket),
            ),
            _ => None,
        }
    }
}

/// The closes of the positions that trades hold, in order, each with the number of its trade.
pub open spec fn closes_for(trades: Seq<ActiveTrade>) -> Seq<(usize, CloseTicket)>
    decreases trades.len(),
{
    if trades.len() == 0 {
        Seq::empty()
    } else {
        let before = closes_for(trades.drop_last());
        match close_of(trades.last()) {
            Some(close) => before.push(((trades.len() - 1) as usize, close)),
            None => before,
        }
    }
}

/// The kill switch ends a trade at time `now`, which gives `after`.
pub open spec fn is_killed(before: ActiveTrade, now: u64, after: ActiveTrade) -> bool {
    &&& before.state_machine.steps_to(
        StateEvent::KillSwitchTriggered,
        now,
        after.state_machine,
        Ok(()),
    )
    &&& after == (ActiveTrade { state_machine: after.state_machine, ..before })
}

/// The kill switch ends every trade at time `now`, which gives `after`.
pub open spec fn are_killed(
    before: Seq<ActiveTrade>,
    now: u64,
    after: Seq<ActiveTrade>,
) -> bool {
    &&& after.len() == before.len()
    &&& forall|i: int|
        0 <= i < before.len() ==> is_killed(before[i], now, #[trigger] after[i])
}

fn find_close(trade: &ActiveTrade) -> (r: Option<CloseTicket>)
    ensures
        r == close_of(*trade),
{
    if trade.pending_req_id.is_some() {
        return None;
    }
    match trade.state_machine.current_state() {
        TradingState::PositionOpen { direction, current_lots, ticket, .. } => Some(
            write_close(&trade.symbol, direction, current_lots, ticket),
        ),
        TradingState::Scaling { direction, current_lots, ticket, .. } => Some(
            write_close(&trade.symbol, direction, current_lots, ticket),
        ),
        TradingState::Exiting { direction, lots, ticket, .. } => Some(
            write_close(&trade.symbol, direction, lots, ticket),
        ),
        _ => None,
    }
}

/// End every trade by the kill switch at time `now`. The closes of the positions that they
/// held are returned, each with the number of its trade.
pub(crate) fn kill_trades(trades: &mut Vec<ActiveTrade>, now: u64) -> (r: Vec<
    (usize, CloseTicket),
>)
    ensures
        are_killed(old(trades)@, now, final(trades)@),
        r@ == closes_for(old(trades)@),
{
    let ghost all = trades@;
    let mut closes: Vec<(usize, CloseTicket)> = Vec::new();
    let mut i: usize = 0;
    assert(all.take(0) =~= Seq::<ActiveTrade>::empty());
    while i < trades.len()
        invariant
            i <= all.len(),
            trades@.len() == all.len(),
            closes@ == closes_for(all.take(i as int)),
            forall|j: int| 0 <= j < i ==> is_killed(all[j], now, #[trigger] trades@[j]),
            forall|j: int| i <= j < all.len() ==> #[trigger] trades@[j] == all[j],
        decreases trades.len() - i,
    {
        assert(all.take(i + 1).drop_last() =~= all.take(i as int));
        assert(trades@[i as int] == all[i as int]);
        if let Some(close) = find_close(&trades[i]) {
            closes.push((i, close));
        }
        let _ = trades[i].state_machine.process_event_at(StateEvent::KillSwitchTriggered, now);
        i = i + 1;
    }
    assert(all.take(i as int) =~= all);
    closes
}

pub(crate) proof fn lemma_closes_are_complete(trades: Seq<ActiveTrade>, i: int)
    requires
        0 <= i < trades.len(),
    ensures
        close_of(trades[i]) is Some ==> closes_for(trades).contains(
            (i as usize, close_of(trades[i])->0),
        ),
    decreases trades.len(),
{
    let before = closes_for(trades.drop_last());
    let all = closes_for(trades);
    if close_of(trades[i]) is Some {
        let wanted = (i as usize, close_of(trades[i])->0);
        if i == trades.len() - 1 {
            assert(all[all.len() - 1] == wanted);
        } else {
            lemma_closes_are_complete(trades.drop_last(), i);
            let k = choose|k: int| 0 <= k < before.len() && before[k] == wanted;
            assert(all[k] == wanted);
        }
    }
}

/// A trade that has ended.
pub open spec fn is_over(trade: ActiveTrade) -> bool {
    trade.state_machine.state() is Idle
}

/// The profits of the trades that have ended, added up in order.
pub open spec fn realized(trades: Seq<ActiveTrade>) -> Double
    decreases trades.len(),
{
    if trades.len() == 0 {
        Double::of_integer(0)
    } else {
        let before = realized(trades.drop_last());
        match trades.last().active_run {
            Some(run) => if is_over(trades.last()) {
                before.sum(run.total())
            } else {
                before
            },
            None => before,
        }
    }
}

/// The journal's entries for the trades that have ended, in order.
pub open spec fn entries_for(trades: Seq<ActiveTrade>, now: u64) -> Seq<JournalEntry>
    decreases trades.len(),
{
    if trades.len() == 0 {
        Seq::empty()
    } else {
        let before = entries_for(trades.drop_last(), now);
        match trade_journal::entry_for(trades.last(), ExitReason::TakeProfitHit, now) {
            Some(entry) => if is_over(trades.last()) {
                before.push(entry)
            } else {
                before
            },
            None => before,
        }
    }
}

/// Cleaning up at time `now` gives `after` and the entries for the journal.
pub open spec fn cleans_to(
    before: AppState,
    now: u64,
    after: AppState,
    entries: Seq<JournalEntry>,
) -> bool {
    &&& entries == entries_for(before.active_trades@, now)
    &&& after.active_trades@ == before.active_trades@.filter(
        |trade: ActiveTrade| !is_over(trade),
    )
    &&& after == (AppState {
        active_trades: after.active_trades,
        daily_pnl: before.daily_pnl.sum(realized(before.active_trades@)),
        ..before
    })
}

fn has_ended(trade: &ActiveTrade) -> (r: bool)
    ensures
        r == is_over(*trade),
{
    match trade.state_machine.current_state() {
        TradingState::Idle => true,
        _ => false,
    }
}

/// Cleans up completed trades, by the wall clock.
pub fn cleanup_completed_trades(state: &mut AppState) -> (r: Vec<JournalEntry>)
    ensures
        exists|reading: std::time::SystemTime|
            cleans_to(
                *old(state),
                clock::timestamp_of(#[trigger] clock::elapsed(reading)),
                *final(state),
                r@,
            ),
        old(state).wf() ==> final(state).wf(),
{
    let now: u64 = clock::now_ms();
    cleanup_completed_trades_at(state, now)
}

/// Cleans up completed trades at time `now`: their profit goes into the day's, and their
/// entries for the journal are returned.
pub fn cleanup_completed_trades_at(state: &mut AppState, now: u64) -> (r: Vec<JournalEntry>)
    ensures
        cleans_to(*old(state), now, *final(state), r@),
        old(state).wf() ==> final(state).wf(),
{
    let ghost all = state.active_trades@;
    let ghost live = |trade: ActiveTrade| !is_over(trade);
    let mut realized_pnl: Double = Double::from_u64(0);
    let mut entries: Vec<JournalEntry> = Vec::new();
    let mut i: usize = 0;
    assert(all.take(0) =~= Seq::<ActiveTrade>::empty());
    while i < state.active_trades.len()
        invariant
            i <= all.len(),
            all == state.active_trades@,
            *state == *old(state),
            realized_pnl == realized(all.take(i as int)),
            entries@ == entries_for(all.take(i as int), now),
        decreases state.active_trades.len() - i,
    {
        assert(all.take(i + 1).drop_last() =~= all.take(i as int));
        let trade: &ActiveTrade = &state.active_trades[i];
        if has_ended(trade) {
            if let Some(run) = &trade.active_run {
                realized_pnl = realized_pnl.plus(run.total_pnl());
            }
            if let Some(entry) = state.trade_journal.log_trade_at(
                trade,
                ExitReason::TakeProfitHit,
                now,
            ) {
                entries.push(entry);
            }
        }
        i = i + 1;
    }
    assert(all.take(i as int) =~= all);
    state.daily_pnl = state.daily_pnl.plus(realized_pnl);
    retain_live(&mut state.active_trades);
    proof {
        if old(state).wf() {
            lemma_filter_keeps_ids(all, live, old(state).trade_id_counter);
        }
    }
    entries
}

/// Keep the trades that have not ended, in their order.
fn retain_live(trades: &mut Vec<ActiveTrade>)
    ensures
        final(trades)@ == old(trades)@.filter(|trade: ActiveTrade| !is_over(trade)),
{
    let ghost all = trades@;
    let ghost live = |trade: ActiveTrade| !is_over(trade);
    let ghost mut seen: int = 0;
    let mut i: usize = 0;
    assert(all.take(0).filter(live) =~= Seq::<ActiveTrade>::empty()) by {
        reveal(Seq::filter);
    }
    assert(trades@ =~= all.take(0).filter(live) + all.skip(0));
    while i < trades.len()
        invariant
            0 <= seen <= all.len(),
            live == (|trade: ActiveTrade| !is_over(trade)),
            i == all.take(seen).filter(live).len(),
            trades@ == all.take(seen).filter(live) + all.skip(seen),
        decreases trades.len() - i,
    {
        let ghost kept = all.take(seen).filter(live);
        proof {
            reveal(Seq::filter);
            assert(trades@.len() == kept.len() + (all.len() - seen));
            assert(all.take(seen + 1).drop_last() =~= all.take(seen));
            assert(trades@[i as int] == all[seen]);
        }
        if has_ended(&trades[i]) {
            let _ = trades.remove(i);
            assert(trades@ =~= kept + all.skip(seen + 1));
        } else {
            assert(trades@ =~= kept.push(all[seen]) + all.skip(seen + 1));
            i = i + 1;
        }
        proof {
            seen = seen + 1;
        }
    }
    assert(trades@ =~= all.take(seen).filter(live));
    assert(all.take(seen) =~= all);
}

proof fn lemma_filter_keeps_ids(
    trades: Seq<ActiveTrade>,
    kept: spec_fn(ActiveTrade) -> bool,
    counter: u64,
)
    requires
        forall|i: int| 0 <= i < trades.len() ==> (#[trigger] trades[i]).id <= counter,
        forall|i: int, j: int|
            #![trigger trades[i], trades[j]]
            0 <= i < j < trades.len() ==> trades[i].id != trades[j].id,
    ensures
        forall|i: int|
            0 <= i < trades.filter(kept).len() ==> (#[trigger] trades.filter(kept)[i]).id
                <= counter,
        forall|i: int, j: int|
            #![trigger trades.filter(kept)[i], trades.filter(kept)[j]]
            0 <= i < j < trades.filter(kept).len() ==> trades.filter(kept)[i].id
                != trades.filter(kept)[j].id,
        forall|i: int|
            0 <= i < trades.filter(kept).len() ==> exists|k: int|
                0 <= k < trades.len() && #[trigger] trades[k] == #[trigger] trades.filter(kept)[i],
    decreases trades.len(),
{
    reveal(Seq::filter);
    if trades.len() > 0 {
        let shorter = trades.drop_last();
        let short = shorter.filter(kept);
        let full = trades.filter(kept);
        lemma_filter_keeps_ids(shorter, kept, counter);
        assert forall|i: int| 0 <= i < full.len() implies exists|k: int|
            0 <= k < trades.len() && #[trigger] trades[k] == #[trigger] full[i] by {
            if i < short.len() {
                let k = choose|k: int|
                    0 <= k < shorter.len() && #[trigger] shorter[k] == short[i];
                assert(trades[k] == full[i]);
            } else {
                assert(trades[trades.len() - 1] == full[i]);
            }
        }
        assert forall|i: int, j: int|
            #![trigger full[i], full[j]]
            0 <= i < j < full.len() implies full[i].id != full[j].id by {
            if j >= short.len() {
                let k = choose|k: int|
                    0 <= k < shorter.len() && #[trigger] shorter[k] == short[i];
                assert(trades[k].id != trades[trades.len() - 1].id);
            } else {
                assert(short[i].id != short[j].id);
            }
        }
    }
}

/// The stop of a new trade is at least thirty pips away, and for gold at least three hundred.
pub proof fn law_stop_has_a_floor(symbol: Seq<char>, account: Account, signal_type: SignalType)
    ensures
        Double::of_integer(30).at_most(stop_distance(symbol, account, signal_type)),
        is_gold(symbol) ==> Double::of_integer(300).at_most(
            stop_distance(symbol, account, signal_type),
        ),
{
    let base = base_stop(symbol, account);
    double::lemma_integer_is_finite(30);
    double::lemma_integer_is_finite(100);
    double::lemma_integer_is_finite(300);
    double::lemma_integers_are_ordered(30, 100);
    double::lemma_integers_are_ordered(30, 300);
    double::lemma_product_with_excess(base, 12, 10);
}

/// A request that is still pending is not sent again.
pub proof fn law_pending_request_is_not_sent_again(state: AppState, trade: ActiveTrade, now: u64)
    requires
        trade.pending_req_id is Some,
    ensures
        own_request(planned(state, trade, now)) is None,
{
}

/// Once the kill switch is active, no trade sends an order.
pub proof fn law_no_order_once_killed(state: AppState, trade: ActiveTrade, now: u64)
    requires
        state.kill_switch.active(),
    ensures
        planned(state, trade, now) !is Order,
{
}

/// A trade enters only with a price, within every risk limit, and not next to losing trades
/// in play on its symbol.
pub proof fn law_entry_passes_every_check(state: AppState, trade: ActiveTrade, now: u64)
    requires
        planned(state, trade, now) is Apply,
        planned(state, trade, now)->Apply_0 is FiltersPass,
    ensures
        state.tick_ingestion.latest_of(trade.symbol@) is Some,
        state.risk_enforcer.entry_verdict(
            trade.symbol@,
            account_of(state, trade.symbol@),
            scanner::in_play_on(others(state.active_trades@, trade.id), trade.symbol@) as u32,
        ) is Ok,
        scanner::in_play_on(others(state.active_trades@, trade.id), trade.symbol@) == 0
            || !scanner::profit_on(
            others(state.active_trades@, trade.id),
            trade.symbol@,
        ).below(Double::of_integer(0)),
{
}

/// A position that loses less than three times its stop distance is held, and one that does
/// not lose exits early only by a reversal or a stall while it is in profit.
pub proof fn law_losing_position_is_held(
    enforcer: RiskEnforcer,
    run: TradingRun,
    pips: Double,
    sl_pips: Double,
    tp_pips: Double,
    multiplier: Double,
    now: u64,
)
    requires
        !tp_pips.at_most(pips),
        !pips.at_most(sl_pips.product(Double::of_integer(3)).negated()),
    ensures
        !Double::of_integer(0).below(pips) ==> exit_called(
            enforcer,
            run,
            pips,
            sl_pips,
            tp_pips,
            multiplier,
            now,
        ) is None,
        exit_called(enforcer, run, pips, sl_pips, tp_pips, multiplier, now) is Some ==> {
            let event = exit_called(enforcer, run, pips, sl_pips, tp_pips, multiplier, now)->0;
            Double::of_integer(0).below(pips) && (event is ReversalDetected
                || event is StallTimeout)
        },
{
}

/// A refused order leaves its symbol alone for the cooldown: no scan before its end comes
/// back to it.
pub proof fn law_refused_order_holds_the_symbol(
    before: AppState,
    i: int,
    reply: Option<OrderReply>,
    now: u64,
    at: u64,
    after: AppState,
    symbol: String,
    later: u64,
)
    requires
        0 <= i < before.active_trades@.len(),
        order_refused(reply),
        order_settles(before, i, reply, now, at, after),
        symbol@ == before.active_trades@[i].symbol@,
        later < cooldown_end(now),
    ensures
        scanner::cooling_down(after, symbol@, later),
        !scanner::scan_list(after, later).contains(symbol),
{
    if scanner::scan_list(after, later).contains(symbol) {
        scanner::law_scanned_symbols_qualify(after, symbol, later);
    }
}

/// An update changes trades alone: each keeps its place, its id and its symbol, and nothing
/// else of the state changes.
pub proof fn law_update_touches_trades_alone(
    before: AppState,
    from: int,
    to: int,
    now: u64,
    after: AppState,
)
    requires
        passes(before, from, to, now, after),
    ensures
        after == (AppState { active_trades: after.active_trades, ..before }),
        after.active_trades@.len() == before.active_trades@.len(),
        forall|j: int|
            0 <= j < before.active_trades@.len() ==> (#[trigger] after.active_trades@[j]).id
                == before.active_trades@[j].id && after.active_trades@[j].symbol
                == before.active_trades@[j].symbol,
    decreases to - from,
{
    if to > from {
        let last = to - 1;
        let (middle, reading) = choose|middle: AppState, reading: std::time::SystemTime|
            passes(before, from, last, now, middle) && #[trigger] updates_by(
                middle,
                last,
                now,
                reading,
                after,
            );
        law_update_touches_trades_alone(before, from, last, now, middle);
        assert forall|j: int| 0 <= j < before.active_trades@.len() implies (
        #[trigger] after.active_trades@[j]).id == before.active_trades@[j].id
            && after.active_trades@[j].symbol == before.active_trades@[j].symbol by {
            assert(middle.active_trades@[j].id == before.active_trades@[j].id);
        }
    }
}

/// After a cleanup no ended trade is left, and every trade left was there before and had not
/// ended.
pub proof fn law_cleanup_leaves_live_trades(
    before: AppState,
    now: u64,
    after: AppState,
    entries: Seq<JournalEntry>,
)
    requires
        cleans_to(before, now, after, entries),
    ensures
        forall|i: int|
            0 <= i < after.active_trades@.len() ==> !is_over(#[trigger] after.active_trades@[i])
                && before.active_trades@.contains(after.active_trades@[i]),
        forall|i: int|
            0 <= i < before.active_trades@.len() && !is_over(
                #[trigger] before.active_trades@[i],
            ) ==> after.active_trades@.contains(before.active_trades@[i]),
{
    lemma_live_trades(before.active_trades@, |trade: ActiveTrade| !is_over(trade));
}

proof fn lemma_live_trades(trades: Seq<ActiveTrade>, kept: spec_fn(ActiveTrade) -> bool)
    ensures
        forall|i: int|
            0 <= i < trades.filter(kept).len() ==> kept(#[trigger] trades.filter(kept)[i])
                && trades.contains(trades.filter(kept)[i]),
        forall|i: int|
            0 <= i < trades.len() && kept(#[trigger] trades[i]) ==> trades.filter(kept).contains(
                trades[i],
            ),
    decreases trades.len(),
{
    reveal(Seq::filter);
    if trades.len() > 0 {
        let shorter = trades.drop_last();
        let short = shorter.filter(kept);
        let full = trades.filter(kept);
        lemma_live_trades(shorter, kept);
        assert forall|i: int| 0 <= i < full.len() implies kept(#[trigger] full[i])
            && trades.contains(full[i]) by {
            if i < short.len() {
                assert(kept(short[i]) && shorter.contains(short[i]));
                let k = choose|k: int| 0 <= k < shorter.len() && shorter[k] == short[i];
                assert(trades[k] == full[i]);
            } else {
                assert(trades[trades.len() - 1] == full[i]);
            }
        }
        assert forall|i: int| 0 <= i < trades.len() && kept(#[trigger] trades[i]) implies
            full.contains(trades[i]) by {
            if i < shorter.len() {
                assert(shorter[i] == trades[i]);
                assert(short.contains(shorter[i]));
                let k = choose|k: int| 0 <= k < short.len() && short[k] == shorter[i];
                assert(full[k] == trades[i]);
            } else {
                assert(full[full.len() - 1] == trades[i]);
            }
        }
    }
}

/// The answer to an accepted request shows the status of the response.
pub proof fn law_answer_shows_the_status(response: BridgeResponse, answer: Value)
    requires
        response.settles_to(Ok(answer)),
    ensures
        status_in(answer) == response.status@,
{
}

/// The stop and the target of an order lie on either side of the price: a long stops below
/// the ask and aims above it, a short stops above the bid and aims below it.
pub proof fn law_order_brackets_the_price(
    symbol: String,
    tick: Tick,
    direction: Direction,
    lots: Double,
    sl_pips: Double,
)
    requires
        Double::of_integer(0).at_most(sl_pips),
        tick.bid.finite(),
        tick.ask.finite(),
        Double::of_integer(0).at_most(tick.bid),
        Double::of_integer(0).at_most(tick.ask),
    ensures
        ({
            let order = order_for(symbol, Some(tick), direction, lots, sl_pips);
            match direction {
                Direction::Long => order.sl.at_most(tick.ask) && tick.ask.at_most(order.tp),
                Direction::Short => order.tp.at_most(tick.bid) && tick.bid.at_most(order.sl),
            }
        }),
{
    let multiplier = tick_ingestion::pips_per_unit(tick.digits);
    let two = Double::of_integer(2);
    let target_pips = sl_pips.product(two);
    double::lemma_integer_is_finite(0);
    double::lemma_integer_is_finite(1);
    double::lemma_integer_is_finite(2);
    double::lemma_integer_is_finite(100);
    double::lemma_integer_is_finite(10000);
    double::lemma_product_is_defined(sl_pips, two);
    double::lemma_product_is_monotone(sl_pips, sl_pips, two);
    double::lemma_quotient_is_defined(sl_pips, multiplier);
    double::lemma_quotient_is_monotone(sl_pips, sl_pips, multiplier);
    double::lemma_quotient_is_defined(target_pips, multiplier);
    double::lemma_quotient_is_monotone(target_pips, target_pips, multiplier);
    double::lemma_sum_moves_outward(tick.ask, sl_pips.quotient(multiplier));
    double::lemma_sum_moves_outward(tick.ask, target_pips.quotient(multiplier));
    double::lemma_sum_moves_outward(tick.bid, sl_pips.quotient(multiplier));
    double::lemma_sum_moves_outward(tick.bid, target_pips.quotient(multiplier));
}

} // verus!
