//! When a session stops itself, in terms of real numbers.
use vstd::prelude::*;
use crate::double::worth::{
    beyond, exact_product, lemma_beyond, lemma_itself, lemma_negated, lemma_order,
    lemma_sized_product, lemma_sized_widens, lemma_times, ordinary, sized,
};
use crate::session::{loses_too_much, synced, ticks_to, AccountUpdate};
use crate::tick_ingestion::Tick;
use crate::AppState;

verus! {

/// The day's loss is too much exactly where it is beyond the configured share of the balance,
/// up to rounding.
pub proof fn law_daily_loss_is_a_share_of_the_balance(state: AppState)
    requires
        state.daily_pnl.finite(),
        state.account_balance.finite(),
        sized(state.account_balance.worth(), 100),
        ordinary(state.config.account.daily_loss_limit_pct),
    ensures
        ({
            let loss = -state.daily_pnl.worth();
            let most = state.account_balance.worth()
                * state.config.account.daily_loss_limit_pct.worth();
            &&& beyond(loss, most) ==> loses_too_much(state)
            &&& beyond(most, loss) ==> !loses_too_much(state)
        }),
{
    let (b, p) = (
        state.account_balance.worth(),
        state.config.account.daily_loss_limit_pct.worth(),
    );
    let limit = state.account_balance.product(state.config.account.daily_loss_limit_pct);
    let pnl = state.daily_pnl.worth();
    lemma_itself(b, 0);
    lemma_itself(p, 0);
    lemma_itself(-pnl, 0);
    lemma_sized_product(b, p, 100, 100);
    lemma_sized_widens(b * p, 200, 900);
    lemma_times(state.account_balance, state.config.account.daily_loss_limit_pct, b, p, 0, 0);
    lemma_negated(limit);
    lemma_order(state.daily_pnl, limit.negated());
    lemma_beyond(-pnl, limit.worth(), -pnl, b * p, 0, 1);
}

/// An update sets what it names, leaves what it does not, and touches nothing else.
pub proof fn law_update_sets_what_it_names(state: AppState, update: AccountUpdate)
    ensures
        ({
            let after = synced(state, update);
            &&& update.balance is Some ==> after.account_balance == update.balance->0
            &&& update.balance is None ==> after.account_balance == state.account_balance
            &&& update.equity is Some ==> after.account_equity == update.equity->0
            &&& update.equity is None ==> after.account_equity == state.account_equity
            &&& after == (AppState {
                account_balance: after.account_balance,
                account_equity: after.account_equity,
                ..state
            })
        }),
{
}

/// A tick that is taken in is the latest of its symbol, as it came and with the time of its
/// arrival. What is known of other symbols stays, and so does everything else of the session.
pub proof fn law_latest_tick_is_the_one_taken(
    before: AppState,
    tick: Tick,
    now: u64,
    after: AppState,
)
    requires
        before.wf(),
        ticks_to(before, tick, now, after),
    ensures
        before.tick_ingestion.buffers().contains_key(tick.symbol@)
            && before.tick_ingestion.buffers()[tick.symbol@].capacity() == 0 || {
            &&& after.tick_ingestion.latest_of(tick.symbol@) is Some
            &&& after.tick_ingestion.latest_of(tick.symbol@)->0.received_at_ms == now
            &&& after.tick_ingestion.latest_of(tick.symbol@)->0.bid == tick.bid
            &&& after.tick_ingestion.latest_of(tick.symbol@)->0.ask == tick.ask
            &&& after.tick_ingestion.latest_of(tick.symbol@)->0.timestamp_ms == tick.timestamp_ms
            &&& after.tick_ingestion.latest_of(tick.symbol@)->0.symbol == tick.symbol
        },
        forall|symbol: Seq<char>|
            symbol != tick.symbol@ ==> #[trigger] after.tick_ingestion.latest_of(symbol)
                == before.tick_ingestion.latest_of(symbol),
        after.active_trades == before.active_trades,
        after.account_balance == before.account_balance,
        after.daily_pnl == before.daily_pnl,
{
}

/// Where the share of the balance needs no rounding, a loss of just that share is not yet too
/// much, and any more is.
pub proof fn law_daily_loss_has_an_exact_bound(state: AppState)
    requires
        state.daily_pnl.finite(),
        exact_product(state.account_balance, state.config.account.daily_loss_limit_pct),
    ensures
        loses_too_much(state) <==> -state.daily_pnl.worth() > state.account_balance.worth()
            * state.config.account.daily_loss_limit_pct.worth(),
{
    let share = state.account_balance.product(state.config.account.daily_loss_limit_pct);
    lemma_negated(share);
    lemma_order(state.daily_pnl, share.negated());
}

} // verus!
