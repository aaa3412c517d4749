//! What each step of a trade's lifecycle does to its price, its lots and its times.
use vstd::prelude::*;
use vstd::arithmetic::power2::*;
use crate::double::worth::{
    lemma_integer_worth, lemma_itself, lemma_plus, lemma_sized_integer, lemma_sized_product,
    lemma_sized_widens, lemma_times, near, ordinary, size,
};
use crate::double::Double;
use crate::state_machine::{
    transition, Direction, ExitReason, SignalType, StateEvent, TradingState,
    TradingStateMachine, COOLDOWN_MS,
};

verus! {

/// A signal that arrives while nothing is going on starts qualifying, on its symbol and in its
/// direction, at that time.
pub proof fn law_signal_starts_qualifying(
    symbol: String,
    direction: Direction,
    now: u64,
    cooldown_ms: u64,
    scale_ins: u8,
)
    ensures
        ({
            let momentum = transition(
                TradingState::Idle,
                StateEvent::MomentumDetected(symbol, direction),
                now,
                cooldown_ms,
                scale_ins,
            );
            let reversion = transition(
                TradingState::Idle,
                StateEvent::ReversionDetected(symbol, direction),
                now,
                cooldown_ms,
                scale_ins,
            );
            &&& momentum is Ok && momentum->Ok_0 is Qualifying
            &&& momentum->Ok_0->Qualifying_symbol == symbol
            &&& momentum->Ok_0->momentum_direction == direction
            &&& momentum->Ok_0->signal_type == SignalType::Momentum
            &&& momentum->Ok_0->Qualifying_started_at_ms == now
            &&& reversion is Ok && reversion->Ok_0 is Qualifying
            &&& reversion->Ok_0->Qualifying_symbol == symbol
            &&& reversion->Ok_0->momentum_direction == direction
            &&& reversion->Ok_0->signal_type == SignalType::Reversion
            &&& reversion->Ok_0->Qualifying_started_at_ms == now
        }),
{
}

/// A trade that passes its filters is ready with the lots and the stop it was given, for five
/// seconds.
pub proof fn law_ready_trade_waits_five_seconds(
    state: TradingState,
    lots: Double,
    sl_pips: Double,
    now: u64,
    cooldown_ms: u64,
    scale_ins: u8,
)
    requires
        state is Qualifying,
        now + 5000 <= u64::MAX,
    ensures
        ({
            let next = transition(
                state,
                StateEvent::FiltersPass { lots, sl_pips },
                now,
                cooldown_ms,
                scale_ins,
            );
            &&& next is Ok && next->Ok_0 is EntryReady
            &&& next->Ok_0->EntryReady_symbol == state->Qualifying_symbol
            &&& next->Ok_0->EntryReady_direction == state->momentum_direction
            &&& next->Ok_0->calculated_lots == lots
            &&& next->Ok_0->EntryReady_sl_pips == sl_pips
            &&& next->Ok_0->timeout_at_ms == now + 5000
        }),
{
}

/// A fill opens the position at the price and under the ticket of the fill, with the lots and
/// the stop of the order, at that time, and aims twice as far as it stops.
pub proof fn law_fill_opens_the_position(
    state: TradingState,
    price: Double,
    ticket: u64,
    now: u64,
    cooldown_ms: u64,
    scale_ins: u8,
)
    requires
        state is EntryReady,
    ensures
        ({
            let next = transition(
                state,
                StateEvent::OrderFilled { price, ticket },
                now,
                cooldown_ms,
                scale_ins,
            );
            let stop = state->EntryReady_sl_pips;
            &&& next is Ok && next->Ok_0 is PositionOpen
            &&& next->Ok_0->PositionOpen_entry_price == price
            &&& next->Ok_0->PositionOpen_ticket == ticket
            &&& next->Ok_0->PositionOpen_current_lots == state->calculated_lots
            &&& next->Ok_0->PositionOpen_sl_pips == stop
            &&& next->Ok_0->entry_time_ms == now
            &&& ordinary(stop) ==> near(
                next->Ok_0->PositionOpen_tp_pips.worth(),
                2 as real * stop.worth(),
                1,
            )
        }),
{
    let stop = state->EntryReady_sl_pips;
    if ordinary(stop) {
        let s = stop.worth();
        lemma_integer_worth(2);
        lemma_itself(s, 0);
        lemma_itself(2 as real, 0);
        lemma_sized_integer(2);
        lemma_sized_product(s, 2 as real, 100, 53);
        lemma_sized_widens(s * 2 as real, 153, 900);
        lemma_times(stop, Double::of_integer(2), s, 2 as real, 0, 0);
        assert(s * 2 as real == 2 as real * s) by (nonlinear_arith);
    }
}

/// Adding to a position keeps its price, its distances and its ticket, and a completed
/// scale-in adds its lots.
pub proof fn law_scale_in_adds_its_lots(
    state: TradingState,
    new_lots: Double,
    now: u64,
    cooldown_ms: u64,
    scale_ins: u8,
)
    requires
        state is Scaling,
    ensures
        ({
            let next = transition(
                state,
                StateEvent::ScaleComplete { new_lots },
                now,
                cooldown_ms,
                scale_ins,
            );
            let held = state->Scaling_current_lots;
            &&& next is Ok && next->Ok_0 is PositionOpen
            &&& next->Ok_0->PositionOpen_entry_price == state->Scaling_entry_price
            &&& next->Ok_0->PositionOpen_ticket == state->Scaling_ticket
            &&& next->Ok_0->PositionOpen_sl_pips == state->Scaling_sl_pips
            &&& next->Ok_0->PositionOpen_tp_pips == state->Scaling_tp_pips
            &&& next->Ok_0->entry_time_ms == now
            &&& held.finite() && new_lots.finite() && size(held.worth() + new_lots.worth()) <= pow2(
                1000,
            ) as real ==> near(
                next->Ok_0->PositionOpen_current_lots.worth(),
                held.worth() + new_lots.worth(),
                1,
            )
        }),
{
    let held = state->Scaling_current_lots;
    if held.finite() && new_lots.finite() && size(held.worth() + new_lots.worth()) <= pow2(1000) as real {
        lemma_plus(held, new_lots);
    }
}

/// Momentum that goes on starts to add to a position, which keeps all that it has.
pub proof fn law_scaling_keeps_the_position(
    state: TradingState,
    now: u64,
    cooldown_ms: u64,
    scale_ins: u8,
)
    requires
        state is PositionOpen,
        scale_ins < 3,
    ensures
        ({
            let next = transition(
                state,
                StateEvent::MomentumContinues,
                now,
                cooldown_ms,
                scale_ins,
            );
            &&& next is Ok && next->Ok_0 is Scaling
            &&& next->Ok_0->Scaling_entry_price == state->PositionOpen_entry_price
            &&& next->Ok_0->Scaling_current_lots == state->PositionOpen_current_lots
            &&& next->Ok_0->Scaling_sl_pips == state->PositionOpen_sl_pips
            &&& next->Ok_0->Scaling_tp_pips == state->PositionOpen_tp_pips
            &&& next->Ok_0->Scaling_ticket == state->PositionOpen_ticket
            &&& next->Ok_0->Scaling_started_at_ms == now
        }),
{
}

/// An open position leaves for the reason of the event, with all its lots, its symbol, its
/// direction and its ticket, at that time.
pub proof fn law_exit_has_the_reason_of_its_event(
    state: TradingState,
    event: StateEvent,
    now: u64,
    cooldown_ms: u64,
    scale_ins: u8,
)
    requires
        state is PositionOpen,
    ensures
        ({
            let next = transition(state, event, now, cooldown_ms, scale_ins);
            let exits_for = |reason: ExitReason|
                {
                    &&& next is Ok && next->Ok_0 is Exiting
                    &&& next->Ok_0->reason == reason
                    &&& next->Ok_0->lots == state->PositionOpen_current_lots
                    &&& next->Ok_0->Exiting_ticket == state->PositionOpen_ticket
                    &&& next->Ok_0->Exiting_symbol == state->PositionOpen_symbol
                    &&& next->Ok_0->Exiting_direction == state->PositionOpen_direction
                    &&& next->Ok_0->Exiting_started_at_ms == now
                };
            &&& event is TakeProfitHit ==> exits_for(ExitReason::TakeProfitHit)
            &&& event is StopLossHit ==> exits_for(ExitReason::StopLossHit)
            &&& event is MomentumDecay ==> exits_for(ExitReason::MomentumDecay)
            &&& event is StallTimeout ==> exits_for(ExitReason::StallTimeout)
            &&& event is ReversalDetected ==> exits_for(ExitReason::ReversalDetected)
            &&& event is SpreadExpanded ==> exits_for(ExitReason::SpreadExpansion)
            &&& event is ProfitLocked ==> next == Ok::<
                TradingState,
                crate::state_machine::TransitionError,
            >(state)
        }),
{
}

/// A position that can be added to no more leaves with all its lots, and a trade that is given
/// up before it has a position just ends.
pub proof fn law_other_ends(state: TradingState, now: u64, cooldown_ms: u64, scale_ins: u8)
    ensures
        state is Scaling ==> {
            let next = transition(state, StateEvent::MaxScalesReached, now, cooldown_ms, scale_ins);
            &&& next is Ok && next->Ok_0 is Exiting
            &&& next->Ok_0->reason == ExitReason::MomentumDecay
            &&& next->Ok_0->lots == state->Scaling_current_lots
            &&& next->Ok_0->Exiting_ticket == state->Scaling_ticket
            &&& next->Ok_0->Exiting_started_at_ms == now
        },
        state is Qualifying ==> transition(
            state,
            StateEvent::FiltersReject,
            now,
            cooldown_ms,
            scale_ins,
        )->Ok_0 == TradingState::Idle,
        state is EntryReady ==> transition(
            state,
            StateEvent::OrderTimeout,
            now,
            cooldown_ms,
            scale_ins,
        )->Ok_0 == TradingState::Idle,
{
}

/// The kill switch ends a trade as what it was: the exit has the symbol and the direction that
/// the state before it had.
pub proof fn law_kill_keeps_symbol_and_direction(
    state: TradingState,
    now: u64,
    cooldown_ms: u64,
    scale_ins: u8,
)
    ensures
        ({
            let next = transition(
                state,
                StateEvent::KillSwitchTriggered,
                now,
                cooldown_ms,
                scale_ins,
            )->Ok_0;
            match state {
                TradingState::Qualifying { symbol, momentum_direction, .. } => next is Exiting
                    && next->Exiting_symbol == symbol && next->Exiting_direction
                    == momentum_direction,
                TradingState::EntryReady { symbol, direction, .. } => next is Exiting
                    && next->Exiting_symbol == symbol && next->Exiting_direction == direction,
                TradingState::PositionOpen { symbol, direction, .. } => next is Exiting
                    && next->Exiting_symbol == symbol && next->Exiting_direction == direction,
                TradingState::Scaling { symbol, direction, .. } => next is Exiting
                    && next->Exiting_symbol == symbol && next->Exiting_direction == direction,
                TradingState::Exiting { symbol, direction, .. } => next is Exiting
                    && next->Exiting_symbol == symbol && next->Exiting_direction == direction,
                TradingState::Idle => next is Idle,
                TradingState::Cooldown { .. } => next is Idle,
            }
        }),
{
}

/// A machine counts the scale-ins of its position: none after a fill, one more after each that
/// is completed, and as many as before after anything else that it takes.
pub proof fn law_scale_ins_are_counted(
    before: TradingStateMachine,
    event: StateEvent,
    now: u64,
    after: TradingStateMachine,
)
    requires
        before.steps_to(event, now, after, Ok(())),
        before.scale_ins() < 255,
    ensures
        event is OrderFilled ==> after.scale_ins() == 0,
        event is ScaleComplete ==> after.scale_ins() == before.scale_ins() + 1,
        !(event is OrderFilled) && !(event is ScaleComplete) ==> after.scale_ins()
            == before.scale_ins(),
        after.log().len() == before.log().len() + 1,
        after.log().last() == (now, before.state(), event),
{
}

/// A closed position is followed by thirty seconds of cooldown.
pub proof fn law_cooldown_lasts_thirty_seconds(state: TradingState, now: u64, scale_ins: u8)
    requires
        state is Exiting,
        now + 30000 <= u64::MAX,
    ensures
        ({
            let next = transition(state, StateEvent::PositionClosed, now, COOLDOWN_MS, scale_ins);
            &&& next is Ok && next->Ok_0 is Cooldown
            &&& next->Ok_0->until_ms == now + 30000
        }),
{
}

} // verus!
