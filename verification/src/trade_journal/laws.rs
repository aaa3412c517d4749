//! What the journal says of a trade, in terms of real numbers.
use vstd::prelude::*;
use vstd::arithmetic::power2::*;
use crate::double::worth::{
    lemma_integer_worth, lemma_itself, lemma_over, lemma_plus, lemma_sized_integer,
    lemma_sized_product, lemma_sized_quotient, lemma_sized_widens, lemma_times, ordinary, size,
    sized,
};
use crate::double::Double;
use crate::state_machine::{ExitReason, TradingState};
use crate::trade_journal::{direction_shown, entry_for};
use crate::ActiveTrade;

verus! {

/// An entry is about its own trade and run: its times, its price, its lots and its profit. The
/// exit price is the entry price plus the profit of each of a hundred thousand units a lot.
pub proof fn law_entry_tells_of_its_trade(trade: ActiveTrade, reason: ExitReason, now: u64)
    ensures
        entry_for(trade, reason, now) is Some <==> trade.active_run is Some,
        trade.active_run is Some ==> {
            let run = trade.active_run->0;
            let entry = entry_for(trade, reason, now)->0;
            let price = run.entry_price.worth();
            let each = run.total().worth() / (run.current_lots.worth() * 100000 as real);
            &&& entry.trade_id == trade.id
            &&& entry.symbol == trade.symbol
            &&& entry.entry_time_ms == run.entry_time_ms
            &&& entry.exit_time_ms == now
            &&& entry.entry_price == run.entry_price
            &&& entry.lots == run.current_lots
            &&& entry.realized_pnl == run.total()
            &&& entry.exit_reason == reason
            &&& ordinary(run.entry_price) && ordinary(run.current_lots) && run.total().finite()
                && sized(run.total().worth(), 100) ==> size(
                entry.exit_price.worth() - (price + each),
            ) * 281474976710656 as real <= price + size(each)
        },
{
    if trade.active_run is Some {
        let run = trade.active_run->0;
        let total = run.total();
        if ordinary(run.entry_price) && ordinary(run.current_lots) && total.finite() && sized(
            total.worth(),
            100,
        ) {
            let contract = Double::of_integer(100000);
            let (l, t, p) = (run.current_lots.worth(), total.worth(), run.entry_price.worth());
            let n = 100000 as real;
            lemma_integer_worth(100000);
            lemma_itself(l, 0);
            lemma_itself(t, 0);
            lemma_itself(n, 0);
            lemma_sized_integer(100000);
            lemma_sized_product(l, n, 100, 53);
            lemma_sized_widens(l * n, 153, 900);
            lemma_times(run.current_lots, contract, l, n, 0, 0);
            lemma_sized_quotient(t, l * n, 100, 153);
            let x = t / (l * n);
            lemma_sized_widens(x, 253, 900);
            lemma_over(total, run.current_lots.product(contract), t, l * n, 0, 1);
            let gain = total.quotient(run.current_lots.product(contract));
            let g = gain.worth();
            assert(2int as real * size(x) == 2 as real * size(x)) by (nonlinear_arith);
            lemma_pow2_strictly_increases(100, 253);
            lemma_pow2_unfold(254);
            lemma_pow2_unfold(255);
            lemma_pow2_strictly_increases(255, 1000);
            assert(size(g) <= 2 as real * size(x));
            lemma_plus(run.entry_price, gain);
            let z = size(p + g);
            assert(1int as real * z == z) by (nonlinear_arith);
            let r = run.entry_price.sum(gain).worth();
            assert(size(r - (p + g)) * 4503599627370496 as real <= z);
        }
    }
}

/// The direction is shown of a position and of an exit, as it is.
pub proof fn law_direction_is_the_positions(state: TradingState)
    ensures
        match state {
            TradingState::PositionOpen { direction, .. } => direction_shown(state) == Some(direction),
            TradingState::Exiting { direction, .. } => direction_shown(state) == Some(direction),
            _ => direction_shown(state) is None,
        },
{
}

} // verus!
