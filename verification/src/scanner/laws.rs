//! Which symbols a scan comes back with, in terms of trades, profits and ticks.
use vstd::prelude::*;
use vstd::arithmetic::power2::*;
use crate::double::worth::{lemma_integer_worth, lemma_order, lemma_plus, near, size};
use crate::scanner::{
    admits, direction_of, in_play, in_play_count, in_play_on, profit_on, scan_list,
    spawns_to, worth_scanning,
};
use crate::state_machine::{Direction, SignalType, TradingState};
use crate::{ActiveTrade, AppState, Double};

verus! {

/// A trade is in play with an order to send, a position or an exit under way, and not before,
/// after or while it is being added to.
pub proof fn law_trades_in_play(trade: ActiveTrade)
    ensures
        in_play(trade) == match trade.state_machine.state() {
            TradingState::Idle => false,
            TradingState::Qualifying { .. } => false,
            TradingState::EntryReady { .. } => true,
            TradingState::PositionOpen { .. } => true,
            TradingState::Scaling { .. } => false,
            TradingState::Exiting { .. } => true,
            TradingState::Cooldown { .. } => false,
        },
{
}

/// One more trade counts where it is in play, and for a symbol where it is also on it. Its
/// profit counts for its own symbol alone.
pub proof fn law_trades_are_counted(trades: Seq<ActiveTrade>, trade: ActiveTrade, symbol: Seq<char>)
    ensures
        in_play_count(Seq::empty()) == 0,
        in_play_on(Seq::empty(), symbol) == 0,
        profit_on(Seq::empty(), symbol).worth() == 0 as real,
        in_play_count(trades.push(trade)) == in_play_count(trades) + if in_play(trade) {
            1nat
        } else {
            0nat
        },
        in_play_on(trades.push(trade), symbol) == in_play_on(trades, symbol) + if in_play(trade)
            && trade.symbol@ == symbol {
            1nat
        } else {
            0nat
        },
        trade.active_run is None || trade.symbol@ != symbol ==> profit_on(
            trades.push(trade),
            symbol,
        ) == profit_on(trades, symbol),
        trade.active_run is Some && trade.symbol@ == symbol && profit_on(trades, symbol).finite()
            && trade.active_run->0.total().finite() && size(
            profit_on(trades, symbol).worth() + trade.active_run->0.total().worth(),
        ) <= pow2(1000) as real ==> near(
            profit_on(trades.push(trade), symbol).worth(),
            profit_on(trades, symbol).worth() + trade.active_run->0.total().worth(),
            1,
        ),
{
    reveal(Seq::filter);
    lemma_integer_worth(0);
    assert(trades.push(trade).drop_last() =~= trades);
    if trade.active_run is Some && trade.symbol@ == symbol && profit_on(trades, symbol).finite()
        && trade.active_run->0.total().finite() && size(
        profit_on(trades, symbol).worth() + trade.active_run->0.total().worth(),
    ) <= pow2(1000) as real {
        lemma_plus(profit_on(trades, symbol), trade.active_run->0.total());
    }
}

/// A symbol admits another trade exactly where its orders are not on hold, its trades in play
/// are not losing, and there is room for it on the symbol or a profit of more than five to
/// build on.
pub proof fn law_symbols_are_admitted_for_cause(state: AppState, symbol: Seq<char>, now: u64)
    requires
        profit_on(state.active_trades@, symbol).finite(),
    ensures
        ({
            let holds = state.execution_cooldowns@;
            let count = in_play_on(state.active_trades@, symbol);
            let profit = profit_on(state.active_trades@, symbol).worth();
            let held = holds.contains_key(symbol) && now < holds[symbol];
            let losing = count > 0 && profit < 0 as real;
            let room = count < state.config.account.max_trades_per_symbol;
            admits(state, symbol, now) <==> !held && !losing && (room || profit > 5 as real)
        }),
{
    let profit = profit_on(state.active_trades@, symbol);
    lemma_integer_worth(0);
    lemma_integer_worth(5);
    lemma_order(profit, Double::of_integer(0));
    lemma_order(Double::of_integer(5), profit);
}

/// A scan comes back with exactly the configured symbols that admit a trade and have fifty
/// ticks, and with none while the trades in play use up the global limit.
pub proof fn law_scan_is_complete(state: AppState, symbol: String, now: u64)
    ensures
        scan_list(state, now).contains(symbol) <==> {
            &&& in_play_count(state.active_trades@) < state.config.account.max_parallel_trades
            &&& state.config.market.symbols@.contains(symbol)
            &&& admits(state, symbol@, now)
            &&& state.tick_ingestion.buffers().contains_key(symbol@)
            &&& state.tick_ingestion.buffers()[symbol@].ticks().len() >= 50
        },
{
    let kept = |s: String| worth_scanning(state, s@, now);
    lemma_filter(state.config.market.symbols@, kept, symbol);
}

proof fn lemma_filter(list: Seq<String>, kept: spec_fn(String) -> bool, s: String)
    ensures
        list.filter(kept).contains(s) <==> list.contains(s) && kept(s),
    decreases list.len(),
{
    reveal(Seq::filter);
    if list.len() > 0 {
        let shorter = list.drop_last();
        let all = list.filter(kept);
        let less = shorter.filter(kept);
        lemma_filter(shorter, kept, s);
        if all.contains(s) {
            let i = choose|i: int| 0 <= i < all.len() && all[i] == s;
            if i < less.len() {
                assert(less[i] == s);
                let k = choose|k: int| 0 <= k < shorter.len() && shorter[k] == s;
                assert(list[k] == s);
            } else {
                assert(list[list.len() - 1] == s);
            }
        }
        if list.contains(s) && kept(s) {
            let k = choose|k: int| 0 <= k < list.len() && list[k] == s;
            if k < shorter.len() {
                assert(shorter[k] == s);
                let i = choose|i: int| 0 <= i < less.len() && less[i] == s;
                assert(all[i] == s);
            } else {
                assert(all[all.len() - 1] == s);
            }
        }
    }
}

/// A signal above zero is for a long, and every other for a short.
pub proof fn law_signals_have_their_side(number: i8)
    ensures
        direction_of(number) == Direction::Long <==> number > 0,
        direction_of(number) == Direction::Short <==> number <= 0,
{
}

/// A trade that is started on a signal comes last, under the next id, and qualifies from then
/// on for the symbol, the direction and the kind of the signal. The other trades stay.
pub proof fn law_new_trade_is_the_next(
    state: AppState,
    symbol: String,
    signal_type: SignalType,
    direction: Direction,
    now: u64,
    after: AppState,
)
    requires
        spawns_to(state, symbol, signal_type, direction, now, after),
        state.trade_id_counter < u64::MAX,
    ensures
        ({
            let n = state.active_trades@.len() as int;
            let trade = after.active_trades@[n];
            let began = trade.state_machine.state();
            &&& after.active_trades@.len() == n + 1
            &&& forall|i: int|
                0 <= i < n ==> #[trigger] after.active_trades@[i] == state.active_trades@[i]
            &&& after.trade_id_counter == state.trade_id_counter + 1
            &&& trade.id == state.trade_id_counter + 1
            &&& trade.symbol == symbol
            &&& began is Qualifying
            &&& began->Qualifying_symbol == symbol
            &&& began->momentum_direction == direction
            &&& began->signal_type == signal_type
            &&& began->Qualifying_started_at_ms == now
            &&& trade.state_machine.cooldown() == 30000
            &&& trade.active_run is None && trade.pending_req_id is None
        }),
{
    assert forall|i: int| 0 <= i < state.active_trades@.len() implies #[trigger] after.active_trades@[i]
        == state.active_trades@[i] by {
        assert(after.active_trades@.drop_last()[i] == after.active_trades@[i]);
    }
}

} // verus!
