//! Scanning for new trades: which symbols are worth asking about, and what an answer leads to.
use vstd::prelude::*;
use crate::clock;
use crate::double::Double;
use crate::python_bridge::{MomentumSignal, ReversionSignal};
use crate::state_machine;
use crate::state_machine::{Direction, SignalType, StateEvent, TradingState};
use crate::tick_ingestion::Tick;
use crate::{ActiveTrade, AppState};

pub mod laws;

verus! {

/// How many ticks an analysis looks at.
pub const ANALYSIS_TICKS: usize = 50;

/// A trade with an order or a position, as opposed to one that waits or has ended.
pub open spec fn in_play(trade: ActiveTrade) -> bool {
    let state = trade.state_machine.state();
    state is PositionOpen || state is Exiting || state is EntryReady
}

/// How many of the trades are in play.
pub open spec fn in_play_count(trades: Seq<ActiveTrade>) -> nat {
    trades.filter(|trade: ActiveTrade| in_play(trade)).len()
}

/// How many of the trades are in play on one symbol.
pub open spec fn in_play_on(trades: Seq<ActiveTrade>, symbol: Seq<char>) -> nat {
    trades.filter(|trade: ActiveTrade| in_play(trade) && trade.symbol@ == symbol).len()
}

/// The profits of the trades' runs on one symbol, added up in order.
pub open spec fn profit_on(trades: Seq<ActiveTrade>, symbol: Seq<char>) -> Double
    decreases trades.len(),
{
    if trades.len() == 0 {
        Double::of_integer(0)
    } else {
        let before = profit_on(trades.drop_last(), symbol);
        match trades.last().active_run {
            Some(run) => if trades.last().symbol@ == symbol {
                before.sum(run.total())
            } else {
                before
            },
            None => before,
        }
    }
}

/// The symbol's orders are on hold after a failed one.
pub open spec fn cooling_down(state: AppState, symbol: Seq<char>, now: u64) -> bool {
    state.execution_cooldowns@.contains_key(symbol) && now < state.execution_cooldowns@[symbol]
}

/// There is room for one more trade.
pub open spec fn has_room(state: AppState) -> bool {
    in_play_count(state.active_trades@) < state.config.account.max_parallel_trades
}

/// A new trade on the symbol may be looked for. One that would add to losing trades may not,
/// and one beyond the limit for the symbol only on top of a profit of more than five.
pub open spec fn admits(state: AppState, symbol: Seq<char>, now: u64) -> bool {
    let count = in_play_on(state.active_trades@, symbol);
    let profit = profit_on(state.active_trades@, symbol);
    &&& !cooling_down(state, symbol, now)
    &&& !(count > 0 && profit.below(Double::of_integer(0)))
    &&& count < state.config.account.max_trades_per_symbol || Double::of_integer(5).below(profit)
}

/// There are enough ticks to analyse.
pub open spec fn has_ticks(state: AppState, symbol: Seq<char>) -> bool {
    state.tick_ingestion.buffers().contains_key(symbol)
        && state.tick_ingestion.buffers()[symbol].ticks().len() >= ANALYSIS_TICKS
}

/// The symbol is to be analysed.
pub open spec fn worth_scanning(state: AppState, symbol: Seq<char>, now: u64) -> bool {
    admits(state, symbol, now) && has_ticks(state, symbol)
}

pub(crate) fn is_in_play(trade: &ActiveTrade) -> (r: bool)
    ensures
        r == in_play(*trade),
{
    match trade.state_machine.current_state() {
        TradingState::PositionOpen { .. } => true,
        TradingState::Exiting { .. } => true,
        TradingState::EntryReady { .. } => true,
        _ => false,
    }
}

fn count_in_play(trades: &Vec<ActiveTrade>) -> (r: usize)
    ensures
        r == in_play_count(trades@),
{
    let ghost kept = |trade: ActiveTrade| in_play(trade);
    let mut count: usize = 0;
    let mut i: usize = 0;
    assert(trades@.take(0).filter(kept).len() == 0) by {
        reveal(Seq::filter);
    }
    while i < trades.len()
        invariant
            i <= trades@.len(),
            kept == (|trade: ActiveTrade| in_play(trade)),
            count == trades@.take(i as int).filter(kept).len(),
            count <= i,
        decreases trades.len() - i,
    {
        proof {
            reveal(Seq::filter);
            assert(trades@.take(i + 1).drop_last() =~= trades@.take(i as int));
        }
        if is_in_play(&trades[i]) {
            count = count + 1;
        }
        i = i + 1;
    }
    assert(trades@.take(i as int) =~= trades@);
    count
}

fn count_in_play_on(trades: &Vec<ActiveTrade>, symbol: &String) -> (r: usize)
    ensures
        r == in_play_on(trades@, symbol@),
{
    let ghost kept = |trade: ActiveTrade| in_play(trade) && trade.symbol@ == symbol@;
    let mut count: usize = 0;
    let mut i: usize = 0;
    assert(trades@.take(0).filter(kept).len() == 0) by {
        reveal(Seq::filter);
    }
    while i < trades.len()
        invariant
            i <= trades@.len(),
            kept == (|trade: ActiveTrade| in_play(trade) && trade.symbol@ == symbol@),
            count == trades@.take(i as int).filter(kept).len(),
            count <= i,
        decreases trades.len() - i,
    {
        proof {
            reveal(Seq::filter);
            assert(trades@.take(i + 1).drop_last() =~= trades@.take(i as int));
        }
        if is_in_play(&trades[i]) && trades[i].symbol == *symbol {
            count = count + 1;
        }
        i = i + 1;
    }
    assert(trades@.take(i as int) =~= trades@);
    count
}

fn sum_profit_on(trades: &Vec<ActiveTrade>, symbol: &String) -> (r: Double)
    ensures
        r == profit_on(trades@, symbol@),
{
    let mut profit: Double = Double::from_u64(0);
    let mut i: usize = 0;
    assert(trades@.take(0) =~= Seq::<ActiveTrade>::empty());
    while i < trades.len()
        invariant
            i <= trades@.len(),
            profit == profit_on(trades@.take(i as int), symbol@),
        decreases trades.len() - i,
    {
        assert(trades@.take(i + 1).drop_last() =~= trades@.take(i as int));
        if let Some(run) = &trades[i].active_run {
            if trades[i].symbol == *symbol {
                profit = profit.plus(run.total_pnl());
            }
        }
        i = i + 1;
    }
    assert(trades@.take(i as int) =~= trades@);
    profit
}

fn is_worth_scanning(state: &AppState, symbol: &String, now: u64) -> (r: bool)
    ensures
        r == worth_scanning(*state, symbol@, now),
{
    // Execution cooldown, after an order failed
    if let Some(cooldown_until) = state.execution_cooldowns.get(symbol.as_str()) {
        if now < *cooldown_until {
            return false;
        }
    }
    let symbol_count: usize = count_in_play_on(&state.active_trades, symbol);
    let symbol_profit: Double = sum_profit_on(&state.active_trades, symbol);
    // Never add to trades that are under water
    if symbol_count > 0 && symbol_profit.is_below(Double::from_u64(0)) {
        return false;
    }
    // Pyramiding: above the limit only on top of a good profit
    let is_profitable: bool = symbol_profit.is_above(Double::from_u64(5));
    let max_per_symbol: u64 = state.config.account.max_trades_per_symbol as u64;
    if symbol_count as u64 >= max_per_symbol && !is_profitable {
        return false;
    }
    match state.tick_ingestion.get_buffer(symbol.as_str()) {
        Some(buffer) => buffer.len() >= ANALYSIS_TICKS,
        None => false,
    }
}

/// The configured symbols to ask the strategy about, in their order. There are none while
/// the trades in play use up the global limit.
pub open spec fn scan_list(state: AppState, now: u64) -> Seq<String> {
    if has_room(state) {
        state.config.market.symbols@.filter(
            |symbol: String| worth_scanning(state, symbol@, now),
        )
    } else {
        Seq::empty()
    }
}

/// Scans for new trading opportunities across all configured symbols: the symbols to ask the
/// strategy about at time `now`.
pub fn scan_for_opportunities(state: &AppState, now: u64) -> (r: Vec<String>)
    ensures
        r@ == scan_list(*state, now),
{
    let mut found: Vec<String> = Vec::new();
    let max_global: u64 = state.config.account.max_parallel_trades as u64;
    if count_in_play(&state.active_trades) as u64 >= max_global {
        return found;
    }
    let symbols: &Vec<String> = &state.config.market.symbols;
    let ghost kept = |symbol: String| worth_scanning(*state, symbol@, now);
    let mut i: usize = 0;
    assert(symbols@.take(0).filter(kept) =~= Seq::<String>::empty()) by {
        reveal(Seq::filter);
    }
    while i < symbols.len()
        invariant
            i <= symbols@.len(),
            kept == (|symbol: String| worth_scanning(*state, symbol@, now)),
            found@ == symbols@.take(i as int).filter(kept),
        decreases symbols.len() - i,
    {
        proof {
            reveal(Seq::filter);
            assert(symbols@.take(i + 1).drop_last() =~= symbols@.take(i as int));
        }
        if is_worth_scanning(state, &symbols[i], now) {
            found.push(symbols[i].clone());
        }
        i = i + 1;
    }
    assert(symbols@.take(i as int) =~= symbols@);
    found
}

/// The ticks to send along: the latest of the symbol, if it has enough of them.
pub fn analysis_ticks<'a>(state: &'a AppState, symbol: &str) -> (r: Option<Vec<&'a Tick>>)
    ensures
        r is Some <==> has_ticks(*state, symbol@),
        r is Some ==> {
            let ticks = state.tick_ingestion.buffers()[symbol@].ticks();
            &&& r->0@.len() == ANALYSIS_TICKS
            &&& forall|i: int|
                0 <= i < ANALYSIS_TICKS ==> *#[trigger] r->0@[i] == ticks[ticks.len()
                    - ANALYSIS_TICKS + i]
        },
{
    match state.tick_ingestion.get_buffer(symbol) {
        Some(buffer) => {
            if buffer.len() >= ANALYSIS_TICKS {
                Some(buffer.latest(ANALYSIS_TICKS))
            } else {
                None
            }
        },
        None => None,
    }
}

/// The direction of a signal's number.
pub open spec fn direction_of(number: i8) -> Direction {
    if number > 0 {
        Direction::Long
    } else {
        Direction::Short
    }
}

/// What an answer of the strategy leads to.
#[derive(Debug, Clone, Copy, PartialEq, Eq, Structural)]
pub enum ScanStep {
    /// Ask for the reversion analysis.
    AskReversion,
    /// Start a trade.
    Spawn { signal_type: SignalType, direction: Direction },
    /// Go on to the next symbol.
    PassOver,
}

fn to_direction(number: i8) -> (r: Direction)
    ensures
        r == direction_of(number),
{
    if number > 0 {
        Direction::Long
    } else {
        Direction::Short
    }
}

/// What the momentum analysis leads to: a trade where it found something, and else the
/// reversion analysis. No answer counts as nothing found.
pub fn after_momentum(answer: Option<MomentumSignal>) -> (r: ScanStep)
    ensures
        r == match answer {
            Some(signal) => if signal.detected {
                ScanStep::Spawn {
                    signal_type: SignalType::Momentum,
                    direction: direction_of(signal.direction),
                }
            } else {
                ScanStep::AskReversion
            },
            None => ScanStep::AskReversion,
        },
        r is Spawn <==> answer is Some && answer->0.detected,
        r is Spawn ==> r->signal_type == SignalType::Momentum && (r->direction == Direction::Long
            <==> answer->0.direction > 0),
        !(r is Spawn) ==> r == ScanStep::AskReversion,
{
    match answer {
        Some(signal) => {
            if signal.detected {
                ScanStep::Spawn {
                    signal_type: SignalType::Momentum,
                    direction: to_direction(signal.direction),
                }
            } else {
                ScanStep::AskReversion
            }
        },
        None => ScanStep::AskReversion,
    }
}

/// What the reversion analysis leads to: a trade where it found something, and else nothing.
/// No answer counts as nothing found.
pub fn after_reversion(answer: Option<ReversionSignal>) -> (r: ScanStep)
    ensures
        r == match answer {
            Some(signal) => if signal.detected {
                ScanStep::Spawn {
                    signal_type: SignalType::Reversion,
                    direction: direction_of(signal.direction),
                }
            } else {
                ScanStep::PassOver
            },
            None => ScanStep::PassOver,
        },
        r is Spawn <==> answer is Some && answer->0.detected,
        r is Spawn ==> r->signal_type == SignalType::Reversion && (r->direction == Direction::Long
            <==> answer->0.direction > 0),
        !(r is Spawn) ==> r == ScanStep::PassOver,
{
    match answer {
        Some(signal) => {
            if signal.detected {
                ScanStep::Spawn {
                    signal_type: SignalType::Reversion,
                    direction: to_direction(signal.direction),
                }
            } else {
                ScanStep::PassOver
            }
        },
        None => ScanStep::PassOver,
    }
}

/// The event that a signal is for a trade.
pub open spec fn signal_event(
    signal_type: SignalType,
    symbol: String,
    direction: Direction,
) -> StateEvent {
    match signal_type {
        SignalType::Momentum => StateEvent::MomentumDetected(symbol, direction),
        SignalType::Reversion => StateEvent::ReversionDetected(symbol, direction),
    }
}

/// `trade` is the trade that starts on a signal at time `now`.
pub open spec fn starts(
    trade: ActiveTrade,
    id: u64,
    symbol: String,
    signal_type: SignalType,
    direction: Direction,
    now: u64,
) -> bool {
    &&& trade.id == id
    &&& trade.symbol == symbol
    &&& trade.state_machine.state() == (TradingState::Qualifying {
        symbol,
        started_at_ms: now,
        momentum_direction: direction,
        signal_type,
    })
    &&& trade.state_machine.log() == seq![
        (now, TradingState::Idle, signal_event(signal_type, symbol, direction)),
    ]
    &&& trade.state_machine.cooldown() == state_machine::COOLDOWN_MS
    &&& trade.state_machine.scale_ins() == 0
    &&& trade.active_run is None
    &&& trade.pending_req_id is None
}

/// Starting a trade on a signal at time `now` gives `after`.
pub open spec fn spawns_to(
    state: AppState,
    symbol: String,
    signal_type: SignalType,
    direction: Direction,
    now: u64,
    after: AppState,
) -> bool {
    let n = state.active_trades@.len();
    &&& after.active_trades@.len() == n + 1
    &&& after.active_trades@.drop_last() == state.active_trades@
    &&& starts(
        after.active_trades@.last(),
        after.trade_id_counter,
        symbol,
        signal_type,
        direction,
        now,
    )
    &&& after == (AppState {
        active_trades: after.active_trades,
        trade_id_counter: (state.trade_id_counter + 1) as u64,
        ..state
    })
}

/// Start a trade on a signal, by the wall clock.
pub fn spawn_trade(
    state: &mut AppState,
    symbol: String,
    signal_type: SignalType,
    direction: Direction,
)
    requires
        old(state).trade_id_counter < u64::MAX,
    ensures
        exists|reading: std::time::SystemTime|
            spawns_to(
                *old(state),
                symbol,
                signal_type,
                direction,
                clock::timestamp_of(#[trigger] clock::elapsed(reading)),
                *final(state),
            ),
        old(state).wf() ==> final(state).wf(),
{
    let now: u64 = clock::now_ms();
    spawn_trade_at(state, symbol, signal_type, direction, now)
}

/// Start a trade on a signal at time `now`.
pub fn spawn_trade_at(
    state: &mut AppState,
    symbol: String,
    signal_type: SignalType,
    direction: Direction,
    now: u64,
)
    requires
        old(state).trade_id_counter < u64::MAX,
    ensures
        spawns_to(*old(state), symbol, signal_type, direction, now, *final(state)),
        old(state).wf() ==> final(state).wf(),
{
    state.trade_id_counter = state.trade_id_counter + 1;
    let mut trade: ActiveTrade = ActiveTrade::new(state.trade_id_counter, symbol.clone());
    let event: StateEvent = match signal_type {
        SignalType::Momentum => StateEvent::MomentumDetected(symbol, direction),
        SignalType::Reversion => StateEvent::ReversionDetected(symbol, direction),
    };
    let _ = trade.state_machine.process_event_at(event, now);
    assert(trade.state_machine.log() =~= seq![(now, TradingState::Idle, event)]);
    state.active_trades.push(trade);
    assert(state.active_trades@.drop_last() =~= old(state).active_trades@);
}

proof fn lemma_filter_without_last(
    trades: Seq<ActiveTrade>,
    kept: spec_fn(ActiveTrade) -> bool,
)
    requires
        trades.len() > 0,
        !kept(trades.last()),
    ensures
        trades.filter(kept) == trades.drop_last().filter(kept),
{
    reveal(Seq::filter);
}

/// Starting a trade does not change which symbols are to be analysed: every symbol of a scan
/// is judged by the trades as they were when it began.
pub proof fn law_scan_is_not_changed_by_its_finds(
    state: AppState,
    symbol: String,
    signal_type: SignalType,
    direction: Direction,
    started_at: u64,
    after: AppState,
    now: u64,
)
    requires
        state.trade_id_counter < u64::MAX,
        spawns_to(state, symbol, signal_type, direction, started_at, after),
    ensures
        scan_list(after, now) == scan_list(state, now),
{
    let trades = after.active_trades@;
    lemma_filter_without_last(trades, |trade: ActiveTrade| in_play(trade));
    assert forall|s: Seq<char>| worth_scanning(after, s, now) == worth_scanning(state, s, now) by {
        lemma_filter_without_last(
            trades,
            |trade: ActiveTrade| in_play(trade) && trade.symbol@ == s,
        );
        assert(profit_on(trades, s) == profit_on(trades.drop_last(), s));
    }
    assert((|s: String| worth_scanning(after, s@, now)) =~= (|s: String|
        worth_scanning(state, s@, now)));
}

/// No new trade is looked for on a symbol whose trades in play are losing.
pub proof fn law_no_adding_to_losers(state: AppState, symbol: String, now: u64)
    requires
        in_play_on(state.active_trades@, symbol@) > 0,
        profit_on(state.active_trades@, symbol@).below(Double::of_integer(0)),
    ensures
        !scan_list(state, now).contains(symbol),
{
    lemma_scanned_is_worth_it(state, symbol, now);
}

/// No new trade is looked for while the trades in play use up the global limit.
pub proof fn law_no_scan_beyond_the_limit(state: AppState, now: u64)
    requires
        in_play_count(state.active_trades@) >= state.config.account.max_parallel_trades,
    ensures
        scan_list(state, now).len() == 0,
{
}

proof fn lemma_filtered_is_kept(list: Seq<String>, kept: spec_fn(String) -> bool, s: String)
    requires
        list.filter(kept).contains(s),
    ensures
        kept(s),
        list.contains(s),
    decreases list.len(),
{
    reveal(Seq::filter);
    let i = choose|i: int| 0 <= i < list.filter(kept).len() && list.filter(kept)[i] == s;
    if list.len() > 0 {
        let shorter = list.drop_last();
        if i < shorter.filter(kept).len() {
            assert(shorter.filter(kept)[i] == s);
            lemma_filtered_is_kept(shorter, kept, s);
            let k = choose|k: int| 0 <= k < shorter.len() && shorter[k] == s;
            assert(list[k] == s);
        } else {
            assert(list.last() == s);
        }
    }
}

proof fn lemma_scanned_is_worth_it(state: AppState, symbol: String, now: u64)
    ensures
        scan_list(state, now).contains(symbol) ==> {
            &&& worth_scanning(state, symbol@, now)
            &&& state.config.market.symbols@.contains(symbol)
        },
{
    if scan_list(state, now).contains(symbol) {
        lemma_filtered_is_kept(
            state.config.market.symbols@,
            |s: String| worth_scanning(state, s@, now),
            symbol,
        );
    }
}

/// Every symbol to be analysed is a configured one that may be traded and has enough ticks.
pub proof fn law_scanned_symbols_qualify(state: AppState, symbol: String, now: u64)
    requires
        scan_list(state, now).contains(symbol),
    ensures
        has_room(state),
        state.config.market.symbols@.contains(symbol),
        admits(state, symbol@, now),
        has_ticks(state, symbol@),
{
    lemma_scanned_is_worth_it(state, symbol, now);
}

} // verus!
