//! The trading session: what the main loop does with the clock, the account and the ticks.
use vstd::prelude::*;
use serde_json::Value;
use crate::clock;
use crate::double::worth::{near, ordinary};
use crate::double::Double;
use crate::json;
use crate::kill_switch;
use crate::kill_switch::{Closing, KillReason};
use crate::risk_enforcer::RiskLimits;
use crate::tick_ingestion::Tick;
use crate::AppState;

pub mod laws;

verus! {

/// Time between two reports of the session's status.
pub const HEARTBEAT_SECONDS: u64 = 30;

/// Whether trading goes on.
#[derive(Debug)]
pub enum Guard {
    /// The kill switch is active.
    Halted { reason: Option<KillReason> },
    /// The day's loss is beyond the limit, and trading has been stopped for it.
    DailyLossHit { closing: Closing },
    /// Trading goes on.
    Clear,
}

/// An account update, as far as it names values.
#[derive(Debug, Clone, Copy)]
pub struct AccountUpdate {
    pub balance: Option<Double>,
    pub equity: Option<Double>,
    pub positions_count: Option<u64>,
}

/// Whether the status is to be reported at `now`, in seconds, after a report at `last`.
pub fn heartbeat_due(last: u64, now: u64) -> (r: bool)
    ensures
        r == (now - last >= HEARTBEAT_SECONDS),
        now < last + 30 ==> !r,
        now >= last + 30 ==> r,
{
    now >= last && now - last >= HEARTBEAT_SECONDS
}

/// The day's loss is beyond the configured share of the balance.
pub open spec fn loses_too_much(state: AppState) -> bool {
    state.daily_pnl.below(
        state.account_balance.product(state.config.account.daily_loss_limit_pct).negated(),
    )
}

/// Checking the session at time `now` gives `after` and `guard`.
pub open spec fn guards_to(before: AppState, now: u64, after: AppState, guard: Guard) -> bool {
    if before.kill_switch.active() {
        &&& guard == (Guard::Halted { reason: before.kill_switch.why() })
        &&& after == before
    } else if loses_too_much(before) {
        &&& guard is DailyLossHit
        &&& kill_switch::stops_to(
            before,
            KillReason::DailyLossLimit,
            now,
            after,
            guard->closing.orders@,
            guard->closing.trades@,
        )
    } else {
        &&& guard == Guard::Clear
        &&& after == before
    }
}

/// Check the kill switch and the daily loss limit, by the wall clock.
pub fn check_limits(state: &mut AppState) -> (r: Guard)
    ensures
        exists|reading: std::time::SystemTime|
            guards_to(
                *old(state),
                clock::timestamp_of(#[trigger] clock::elapsed(reading)),
                *final(state),
                r,
            ),
        old(state).wf() ==> final(state).wf(),
{
    let now: u64 = clock::now_ms();
    check_limits_at(state, now)
}

/// Check the kill switch and the daily loss limit at time `now`.
pub fn check_limits_at(state: &mut AppState, now: u64) -> (r: Guard)
    ensures
        guards_to(*old(state), now, *final(state), r),
        old(state).wf() ==> final(state).wf(),
{
    if state.kill_switch.is_active() {
        return Guard::Halted { reason: state.kill_switch.get_reason() };
    }
    let daily_limit: Double = state.account_balance.times(
        state.config.account.daily_loss_limit_pct,
    );
    if state.daily_pnl.is_below(daily_limit.negate()) {
        let closing: Closing = kill_switch::stop_trading_at(
            state,
            KillReason::DailyLossLimit,
            now,
        );
        return Guard::DailyLossHit { closing };
    }
    Guard::Clear
}

impl AccountUpdate {
    /// Read the account data of the bridge.
    pub fn read(data: &Value) -> (r: AccountUpdate)
        ensures
            r.balance == json::number_in(*data, "balance"@),
            r.equity == json::number_in(*data, "equity"@),
            r.positions_count == json::count_in(*data, "positions_count"@),
    {
        AccountUpdate {
            balance: json::number_at(data, "balance"),
            equity: json::number_at(data, "equity"),
            positions_count: json::count_at(data, "positions_count"),
        }
    }
}

/// The state with the balance and the equity of an update, where it names them.
pub open spec fn synced(state: AppState, update: AccountUpdate) -> AppState {
    AppState {
        account_balance: match update.balance {
            Some(balance) => balance,
            None => state.account_balance,
        },
        account_equity: match update.equity {
            Some(equity) => equity,
            None => state.account_equity,
        },
        ..state
    }
}

/// Take over the balance and the equity when the session starts.
pub fn sync_account(state: &mut AppState, update: AccountUpdate)
    ensures
        *final(state) == synced(*old(state), update),
{
    if let Some(balance) = update.balance {
        state.account_balance = balance;
    }
    if let Some(equity) = update.equity {
        state.account_equity = equity;
    }
}

/// Take over an account update: the balance, the equity and the number of positions, where it
/// names them. The daily loss limit follows the balance.
pub fn apply_account(state: &mut AppState, update: AccountUpdate)
    ensures
        ({
            let next = synced(*old(state), update);
            &&& *final(state) == (AppState {
                open_positions_count: match update.positions_count {
                    Some(count) => count as u32,
                    None => old(state).open_positions_count,
                },
                risk_enforcer: final(state).risk_enforcer,
                ..next
            })
            &&& final(state).risk_enforcer.limits() == (RiskLimits {
                daily_loss_limit: next.account_balance.product(
                    old(state).risk_enforcer.limits().daily_loss_pct,
                ),
                ..old(state).risk_enforcer.limits()
            })
            &&& final(state).risk_enforcer.overrides() == old(state).risk_enforcer.overrides()
        }),
        update.balance is Some ==> final(state).account_balance == update.balance->0,
        update.balance is None ==> final(state).account_balance == old(state).account_balance,
        update.equity is Some ==> final(state).account_equity == update.equity->0,
        update.equity is None ==> final(state).account_equity == old(state).account_equity,
        ordinary(final(state).account_balance) && ordinary(
            old(state).risk_enforcer.limits().daily_loss_pct,
        ) ==> near(
            final(state).risk_enforcer.limits().daily_loss_limit.worth(),
            final(state).account_balance.worth() * old(
                state,
            ).risk_enforcer.limits().daily_loss_pct.worth(),
            1,
        ),
{
    sync_account(state, update);
    if let Some(count) = update.positions_count {
        state.open_positions_count = count as u32;
    }
    let balance: Double = state.account_balance;
    state.risk_enforcer.update_daily_limit(balance);
}

/// Take in a tick that arrives now, by the wall clock.
pub fn take_tick(state: &mut AppState, tick: Tick)
    ensures
        exists|reading: std::time::SystemTime|
            ticks_to(
                *old(state),
                tick,
                clock::timestamp_of(#[trigger] clock::elapsed(reading)),
                *final(state),
            ),
        old(state).wf() ==> final(state).wf(),
{
    let now: u64 = clock::now_ms();
    take_tick_at(state, tick, now)
}

/// Taking in a tick that arrives at time `now` gives `after`: the tick is the latest of its
/// symbol, with the time of its arrival.
pub open spec fn ticks_to(before: AppState, tick: Tick, now: u64, after: AppState) -> bool {
    let arrived = Tick { received_at_ms: now, ..tick };
    let buffer = after.tick_ingestion.buffers()[tick.symbol@];
    &&& after == (AppState { tick_ingestion: after.tick_ingestion, ..before })
    &&& after.tick_ingestion.buffer_size() == before.tick_ingestion.buffer_size()
    &&& after.tick_ingestion.buffers() == before.tick_ingestion.buffers().insert(
        tick.symbol@,
        buffer,
    )
    &&& if before.tick_ingestion.buffers().contains_key(tick.symbol@) {
        before.tick_ingestion.buffers()[tick.symbol@].takes(arrived, buffer)
    } else {
        &&& buffer.ticks() == seq![arrived]
        &&& buffer.capacity() == before.tick_ingestion.buffer_size()
        &&& buffer.received() == 1
        &&& buffer.average() == arrived.spread()
        &&& buffer.samples() == 1
    }
}

/// Take in a tick that arrives at time `now`.
pub fn take_tick_at(state: &mut AppState, tick: Tick, now: u64)
    ensures
        ticks_to(*old(state), tick, now, *final(state)),
        old(state).wf() ==> final(state).wf(),
{
    let mut arrived: Tick = tick;
    arrived.received_at_ms = now;
    let _ = state.tick_ingestion.process_tick(arrived);
}

/// Once the kill switch is active, every check halts trading and changes nothing.
pub proof fn law_halt_is_final(before: AppState, now: u64, after: AppState, guard: Guard)
    requires
        before.kill_switch.active(),
        guards_to(before, now, after, guard),
    ensures
        guard is Halted,
        after == before,
{
}

/// A daily loss beyond the limit stops trading with that reason, and the next check halts
/// trading for it.
pub proof fn law_daily_loss_halts_trading(
    before: AppState,
    now: u64,
    after: AppState,
    guard: Guard,
    later: u64,
    last: AppState,
    second: Guard,
)
    requires
        loses_too_much(before),
        !before.kill_switch.active(),
        guards_to(before, now, after, guard),
        guards_to(after, later, last, second),
    ensures
        after.kill_switch.active(),
        after.order_executor.halted(),
        guard is DailyLossHit,
        second == (Guard::Halted { reason: Some(KillReason::DailyLossLimit) }),
{
}

} // verus!
