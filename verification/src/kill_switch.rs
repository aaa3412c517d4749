//! Kill switch: the emergency stop.
//!
//! When triggered, at once:
//! 1. all pending orders are cancelled
//! 2. all positions are closed at market, by the orders that are handed out
//! 3. further order submission is disabled
//! 4. the event is recorded
//!
//! `stop_trading` triggers the switch of a session and also ends its active trades.
//!
//! Once triggered the switch stays triggered, and the first reason stands.
use vstd::prelude::*;
use crate::clock;
use crate::order_executor;
use crate::order_executor::{Order, OrderExecutor, OrderStatus};
use crate::state_machine;
use crate::trade_manager;
use crate::trade_manager::CloseTicket;
use crate::AppState;

verus! {

/// Reasons for triggering the kill switch.
#[derive(Debug, PartialEq)]
pub enum KillReason {
    DailyLossLimit,
    DrawdownLimit,
    ManualStop,
    LatencySpike,
    BrokerDisconnect,
    SpreadAnomaly,
    UnknownError(String),
}

/// Kill switch event record.
#[derive(Debug)]
pub struct KillEvent {
    pub reason: KillReason,
    pub timestamp_ms: u64,
    pub account_state: Option<String>,
}

/// The emergency stop.
pub struct KillSwitch {
    triggered: bool,
    reason: Option<KillReason>,
    event_history: Vec<KillEvent>,
}

impl Clone for KillReason {
    fn clone(&self) -> (r: KillReason)
        ensures
            r == *self,
    {
        match self {
            KillReason::DailyLossLimit => KillReason::DailyLossLimit,
            KillReason::DrawdownLimit => KillReason::DrawdownLimit,
            KillReason::ManualStop => KillReason::ManualStop,
            KillReason::LatencySpike => KillReason::LatencySpike,
            KillReason::BrokerDisconnect => KillReason::BrokerDisconnect,
            KillReason::SpreadAnomaly => KillReason::SpreadAnomaly,
            KillReason::UnknownError(text) => KillReason::UnknownError(text.clone()),
        }
    }
}

impl Clone for KillEvent {
    fn clone(&self) -> (r: KillEvent)
        ensures
            r == *self,
    {
        KillEvent {
            reason: self.reason.clone(),
            timestamp_ms: self.timestamp_ms,
            account_state: match &self.account_state {
                Some(text) => Some(text.clone()),
                None => None,
            },
        }
    }
}

/// The text for each reason.
pub open spec fn kill_text(reason: KillReason) -> Seq<char> {
    match reason {
        KillReason::DailyLossLimit => "Daily loss limit exceeded"@,
        KillReason::DrawdownLimit => "Drawdown limit exceeded"@,
        KillReason::ManualStop => "Manual stop requested"@,
        KillReason::LatencySpike => "Network latency spike detected"@,
        KillReason::BrokerDisconnect => "Broker connection lost"@,
        KillReason::SpreadAnomaly => "Abnormal spread detected"@,
        KillReason::UnknownError(text) => "Unknown error: "@ + text@,
    }
}

impl KillReason {
    /// The reason in words.
    pub fn describe(&self) -> (r: String)
        ensures
            r@ == kill_text(*self),
    {
        match self {
            KillReason::DailyLossLimit => "Daily loss limit exceeded".to_owned(),
            KillReason::DrawdownLimit => "Drawdown limit exceeded".to_owned(),
            KillReason::ManualStop => "Manual stop requested".to_owned(),
            KillReason::LatencySpike => "Network latency spike detected".to_owned(),
            KillReason::BrokerDisconnect => "Broker connection lost".to_owned(),
            KillReason::SpreadAnomaly => "Abnormal spread detected".to_owned(),
            KillReason::UnknownError(text) => "Unknown error: ".to_owned().concat(text.as_str()),
        }
    }
}

impl KillSwitch {
    /// The switch was triggered.
    pub closed spec fn active(&self) -> bool {
        self.triggered
    }

    /// Why it was triggered first.
    pub closed spec fn why(&self) -> Option<KillReason> {
        self.reason
    }

    /// The records of its triggering.
    pub closed spec fn events(&self) -> Seq<KillEvent> {
        self.event_history@
    }

    /// An active switch has its reason and the one record of it; another has neither.
    pub open spec fn wf(&self) -> bool {
        if self.active() {
            &&& self.why() is Some
            &&& self.events().len() == 1
            &&& self.events()[0].reason == self.why()->0
        } else {
            &&& self.why() is None
            &&& self.events().len() == 0
        }
    }

    /// Setting this switch for `reason` at time `now` gives `after`. Only the first reason
    /// counts.
    pub open spec fn sets_to(&self, reason: KillReason, now: u64, after: KillSwitch) -> bool {
        if self.active() {
            after == *self
        } else {
            &&& after.active()
            &&& after.why() == Some(reason)
            &&& after.events() == self.events().push(
                KillEvent { reason, timestamp_ms: now, account_state: None },
            )
        }
    }

    /// Triggering this switch for `reason` at time `now`, with the orders in `before`, gives
    /// the switch `after`, the orders in `stopped` and the orders that close the positions:
    /// every pending order is cancelled, and no order is accepted any more. A switch that was
    /// triggered before keeps its reason, and orders that were stopped with it stay as they
    /// are.
    pub open spec fn stops(
        &self,
        before: OrderExecutor,
        reason: KillReason,
        now: u64,
        after: KillSwitch,
        stopped: OrderExecutor,
        closing: Seq<Order>,
    ) -> bool {
        if self.active() && before.halted() {
            &&& after == *self
            &&& stopped == before
            &&& closing.len() == 0
        } else {
            &&& self.sets_to(reason, now, after)
            &&& before.shuts_down_to(now, stopped, closing)
        }
    }

    pub fn new() -> (r: KillSwitch)
        ensures
            !r.active(),
            r.why() is None,
            r.events() == Seq::<KillEvent>::empty(),
            r.wf(),
    {
        KillSwitch { triggered: false, reason: None, event_history: Vec::new() }
    }

    /// Trigger the kill switch, by the wall clock: the orders are stopped with it. The orders
    /// returned close the positions at market.
    pub fn trigger(&mut self, orders: &mut OrderExecutor, reason: KillReason) -> (closing: Vec<
        Order,
    >)
        ensures
            exists|reading: std::time::SystemTime|
                old(self).stops(
                    *old(orders),
                    reason,
                    clock::timestamp_of(#[trigger] clock::elapsed(reading)),
                    *final(self),
                    *final(orders),
                    closing@,
                ),
            final(self).active(),
            final(orders).halted(),
            old(self).wf() ==> final(self).wf(),
            old(orders).wf() ==> final(orders).wf(),
    {
        let now: u64 = clock::now_ms();
        self.trigger_at(orders, reason, now)
    }

    /// Trigger the kill switch at time `now`. The orders returned close the positions at
    /// market.
    pub fn trigger_at(&mut self, orders: &mut OrderExecutor, reason: KillReason, now: u64) -> (
    closing: Vec<Order>)
        ensures
            old(self).stops(*old(orders), reason, now, *final(self), *final(orders), closing@),
            final(self).active(),
            final(orders).halted(),
            old(self).wf() ==> final(self).wf(),
            old(orders).wf() ==> final(orders).wf(),
    {
        if self.triggered && orders.is_halted() {
            return Vec::new();
        }
        self.set(reason, now);
        orders.shut_down_at(now)
    }

    /// Set the switch at time `now`.
    fn set(&mut self, reason: KillReason, now: u64)
        ensures
            old(self).sets_to(reason, now, *final(self)),
            final(self).active(),
            old(self).wf() ==> final(self).wf(),
    {
        if !self.triggered {
            self.triggered = true;
            self.reason = Some(reason.clone());
            self.event_history.push(KillEvent { reason, timestamp_ms: now, account_state: None });
        }
    }

    /// Check if the kill switch is active.
    pub fn is_active(&self) -> (r: bool)
        ensures
            r == self.active(),
    {
        self.triggered
    }

    /// Get the reason for triggering (if triggered).
    pub fn get_reason(&self) -> (r: Option<KillReason>)
        ensures
            r == self.why(),
    {
        match &self.reason {
            Some(reason) => Some(reason.clone()),
            None => None,
        }
    }
}

impl Default for KillSwitch {
    fn default() -> (r: KillSwitch)
        ensures
            !r.active(),
            r.why() is None,
            r.events() == Seq::<KillEvent>::empty(),
            r.wf(),
    {
        KillSwitch::new()
    }
}

/// What is sent to the broker once trading is stopped.
#[derive(Debug)]
pub struct Closing {
    /// The orders that close the positions of the executor at market.
    pub orders: Vec<Order>,
    /// The closes of the trades that held a position, each with the number of its trade.
    pub trades: Vec<(usize, CloseTicket)>,
}

/// Stopping trading for `reason` at time `now` gives `after`, the orders that close the
/// executor's positions and the closes of the trades: the switch is triggered, and every
/// active trade is ended by it. Trading that was stopped before stays as it is.
pub open spec fn stops_to(
    before: AppState,
    reason: KillReason,
    now: u64,
    after: AppState,
    orders: Seq<Order>,
    trades: Seq<(usize, CloseTicket)>,
) -> bool {
    &&& before.kill_switch.stops(
        before.order_executor,
        reason,
        now,
        after.kill_switch,
        after.order_executor,
        orders,
    )
    &&& after == (AppState {
        kill_switch: after.kill_switch,
        order_executor: after.order_executor,
        active_trades: after.active_trades,
        ..before
    })
    &&& if before.kill_switch.active() && before.order_executor.halted() {
        &&& after.active_trades == before.active_trades
        &&& trades.len() == 0
    } else {
        &&& trade_manager::are_killed(before.active_trades@, now, after.active_trades@)
        &&& trades == trade_manager::closes_for(before.active_trades@)
    }
}

/// Stop trading, by the wall clock. What is returned closes the positions.
pub fn stop_trading(state: &mut AppState, reason: KillReason) -> (closing: Closing)
    ensures
        exists|reading: std::time::SystemTime|
            stops_to(
                *old(state),
                reason,
                clock::timestamp_of(#[trigger] clock::elapsed(reading)),
                *final(state),
                closing.orders@,
                closing.trades@,
            ),
        final(state).kill_switch.active(),
        final(state).order_executor.halted(),
        old(state).wf() ==> final(state).wf(),
{
    let now: u64 = clock::now_ms();
    stop_trading_at(state, reason, now)
}

/// Stop trading at time `now`. What is returned closes the positions.
pub fn stop_trading_at(state: &mut AppState, reason: KillReason, now: u64) -> (closing: Closing)
    ensures
        stops_to(*old(state), reason, now, *final(state), closing.orders@, closing.trades@),
        final(state).kill_switch.active(),
        final(state).order_executor.halted(),
        old(state).wf() ==> final(state).wf(),
{
    let stopped: bool = state.kill_switch.is_active() && state.order_executor.is_halted();
    let orders: Vec<Order> = state.kill_switch.trigger_at(&mut state.order_executor, reason, now);
    if stopped {
        return Closing { orders, trades: Vec::new() };
    }
    let trades: Vec<(usize, CloseTicket)> = trade_manager::kill_trades(
        &mut state.active_trades,
        now,
    );
    Closing { orders, trades }
}

/// After the switch was triggered, the orders that were pending are all cancelled, every
/// position has its order that closes it, and no order is accepted: submitting one is refused
/// and changes nothing.
pub proof fn law_no_live_order_after_a_trigger(
    switch: KillSwitch,
    before: OrderExecutor,
    reason: KillReason,
    now: u64,
    after: KillSwitch,
    stopped: OrderExecutor,
    closing: Seq<Order>,
    order: Order,
    later: u64,
    last: OrderExecutor,
    r: Result<u64, String>,
)
    requires
        before.wf(),
        !switch.active(),
        switch.stops(before, reason, now, after, stopped, closing),
        stopped.submits_to(order, later, last, r),
    ensures
        after.active(),
        after.why() == Some(reason),
        after.events() == switch.events().push(
            KillEvent { reason, timestamp_ms: now, account_state: None },
        ),
        stopped.pending().dom() == before.pending().dom(),
        forall|id: u64|
            stopped.pending().contains_key(id) ==> (#[trigger] stopped.pending()[id]).status
                == OrderStatus::Cancelled,
        before.closes_with(closing, now),
        r is Err,
        last == stopped,
{
    order_executor::lemma_all_cancelled(before.queue(), now, stopped.queue());
}

/// Once triggered, the switch cannot be undone, and a second trigger changes neither the
/// reason nor the record nor the orders.
pub proof fn law_first_trigger_stands(
    switch: KillSwitch,
    before: OrderExecutor,
    first: KillReason,
    first_at: u64,
    once: KillSwitch,
    stopped: OrderExecutor,
    closing: Seq<Order>,
    second: KillReason,
    second_at: u64,
    twice: KillSwitch,
    last: OrderExecutor,
    again: Seq<Order>,
)
    requires
        !switch.active(),
        switch.stops(before, first, first_at, once, stopped, closing),
        once.stops(stopped, second, second_at, twice, last, again),
    ensures
        twice.active(),
        twice.why() == Some(first),
        twice == once,
        last == stopped,
        again.len() == 0,
{
}

/// When trading is stopped, no active trade goes on: one that was about a symbol is at its
/// exit for the kill switch, and every other is over. Each keeps its place, its id and its
/// symbol, and one that held a position has its close handed out, with its lots and its
/// ticket, unless a request of it is in flight.
pub proof fn law_stop_ends_every_trade(
    before: AppState,
    reason: KillReason,
    now: u64,
    after: AppState,
    orders: Seq<Order>,
    trades: Seq<(usize, CloseTicket)>,
    i: int,
)
    requires
        !before.kill_switch.active(),
        stops_to(before, reason, now, after, orders, trades),
        0 <= i < before.active_trades@.len(),
    ensures
        after.active_trades@.len() == before.active_trades@.len(),
        after.active_trades@[i].id == before.active_trades@[i].id,
        after.active_trades@[i].symbol == before.active_trades@[i].symbol,
        after.active_trades@[i].state_machine.state() == state_machine::killed_from(
            before.active_trades@[i].state_machine.state(),
            now,
        ),
        trade_manager::close_of(before.active_trades@[i]) is Some ==> trades.contains(
            (i as usize, trade_manager::close_of(before.active_trades@[i])->0),
        ),
{
    trade_manager::lemma_closes_are_complete(before.active_trades@, i);
}

} // verus!
