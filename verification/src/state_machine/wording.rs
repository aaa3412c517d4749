//! States, events and refusals in words.
use vstd::prelude::*;
use crate::decimal::shortest::{shortest_decimal, shortest_text};
use crate::state_machine::{
    Direction, ExitReason, SignalType, StateEvent, TradingState, TransitionError,
};
use crate::text;

verus! {

/// What the `Debug` formatting of `str` makes of a text: the text in quotation marks, with
/// escapes for what cannot be shown as it is.
pub uninterp spec fn quoted(text: Seq<char>) -> Seq<char>;

/// The `Debug` formatting of `str`. Claimed is that the result is a function of the text.
#[verifier::external_body]
fn quote(text: &str) -> (r: String)
    ensures
        r@ == quoted(text@),
{
    format!("{:?}", text)
}

/// The name of a direction.
pub open spec fn direction_name(x: Direction) -> Seq<char> {
    match x {
        Direction::Long => "Long"@,
        Direction::Short => "Short"@,
    }
}

/// The name of a kind of signal.
pub open spec fn signal_name(x: SignalType) -> Seq<char> {
    match x {
        SignalType::Momentum => "Momentum"@,
        SignalType::Reversion => "Reversion"@,
    }
}

/// The name of an exit reason.
pub open spec fn reason_name(x: ExitReason) -> Seq<char> {
    match x {
        ExitReason::TakeProfitHit => "TakeProfitHit"@,
        ExitReason::StopLossHit => "StopLossHit"@,
        ExitReason::MomentumDecay => "MomentumDecay"@,
        ExitReason::StallTimeout => "StallTimeout"@,
        ExitReason::ReversalDetected => "ReversalDetected"@,
        ExitReason::SpreadExpansion => "SpreadExpansion"@,
        ExitReason::ManualExit => "ManualExit"@,
        ExitReason::KillSwitch => "KillSwitch"@,
    }
}

/// The symbol that a state names; empty where it names none.
pub open spec fn symbol_in_state(state: TradingState) -> Seq<char> {
    match state {
        TradingState::Idle => Seq::empty(),
        TradingState::Qualifying { symbol, .. } => symbol@,
        TradingState::EntryReady { symbol, .. } => symbol@,
        TradingState::PositionOpen { symbol, .. } => symbol@,
        TradingState::Scaling { symbol, .. } => symbol@,
        TradingState::Exiting { symbol, .. } => symbol@,
        TradingState::Cooldown { .. } => Seq::empty(),
    }
}

/// The symbol that an event names; empty where it names none.
pub open spec fn symbol_in_event(event: StateEvent) -> Seq<char> {
    match event {
        StateEvent::MomentumDetected(symbol, _) => symbol@,
        StateEvent::ReversionDetected(symbol, _) => symbol@,
        _ => Seq::empty(),
    }
}

/// A state with its fields, where `symbol` is how its symbol is written.
pub open spec fn state_text(state: TradingState, symbol: Seq<char>) -> Seq<char> {
    match state {
        TradingState::Idle => "Idle"@,
        TradingState::Qualifying { started_at_ms, momentum_direction, signal_type, .. } => "Qualifying { symbol: "@ + symbol
            + ", started_at_ms: "@ + text::numeral(started_at_ms as nat)
            + ", momentum_direction: "@ + direction_name(momentum_direction)
            + ", signal_type: "@ + signal_name(signal_type)
            + " }"@,
        TradingState::EntryReady { direction, calculated_lots, sl_pips, timeout_at_ms, .. } => "EntryReady { symbol: "@ + symbol
            + ", direction: "@ + direction_name(direction)
            + ", calculated_lots: "@ + shortest_text(calculated_lots)
            + ", sl_pips: "@ + shortest_text(sl_pips)
            + ", timeout_at_ms: "@ + text::numeral(timeout_at_ms as nat)
            + " }"@,
        TradingState::PositionOpen { direction, entry_price, current_lots, sl_pips, tp_pips, entry_time_ms, ticket, .. } => "PositionOpen { symbol: "@ + symbol
            + ", direction: "@ + direction_name(direction)
            + ", entry_price: "@ + shortest_text(entry_price)
            + ", current_lots: "@ + shortest_text(current_lots)
            + ", sl_pips: "@ + shortest_text(sl_pips)
            + ", tp_pips: "@ + shortest_text(tp_pips)
            + ", entry_time_ms: "@ + text::numeral(entry_time_ms as nat)
            + ", ticket: "@ + text::numeral(ticket as nat)
            + " }"@,
        TradingState::Scaling { direction, entry_price, current_lots, sl_pips, tp_pips, started_at_ms, ticket, .. } => "Scaling { symbol: "@ + symbol
            + ", direction: "@ + direction_name(direction)
            + ", entry_price: "@ + shortest_text(entry_price)
            + ", current_lots: "@ + shortest_text(current_lots)
            + ", sl_pips: "@ + shortest_text(sl_pips)
            + ", tp_pips: "@ + shortest_text(tp_pips)
            + ", started_at_ms: "@ + text::numeral(started_at_ms as nat)
            + ", ticket: "@ + text::numeral(ticket as nat)
            + " }"@,
        TradingState::Exiting { direction, reason, started_at_ms, lots, ticket, .. } => "Exiting { symbol: "@ + symbol
            + ", direction: "@ + direction_name(direction)
            + ", reason: "@ + reason_name(reason)
            + ", started_at_ms: "@ + text::numeral(started_at_ms as nat)
            + ", lots: "@ + shortest_text(lots)
            + ", ticket: "@ + text::numeral(ticket as nat)
            + " }"@,
        TradingState::Cooldown { until_ms } => "Cooldown { until_ms: "@ + text::numeral(until_ms as nat)
            + " }"@,
    }
}

/// An event with its fields, where `symbol` is how its symbol is written.
pub open spec fn event_text(event: StateEvent, symbol: Seq<char>) -> Seq<char> {
    match event {
        StateEvent::MomentumDetected(_, direction) => "MomentumDetected("@ + symbol + ", "@ + direction_name(
            direction,
        ) + ")"@,
        StateEvent::ReversionDetected(_, direction) => "ReversionDetected("@ + symbol + ", "@ + direction_name(
            direction,
        ) + ")"@,
        StateEvent::FiltersPass { lots, sl_pips } => "FiltersPass { lots: "@ + shortest_text(lots)
            + ", sl_pips: "@ + shortest_text(sl_pips)
            + " }"@,
        StateEvent::FiltersReject => "FiltersReject"@,
        StateEvent::OrderFilled { price, ticket } => "OrderFilled { price: "@ + shortest_text(price)
            + ", ticket: "@ + text::numeral(ticket as nat)
            + " }"@,
        StateEvent::OrderTimeout => "OrderTimeout"@,
        StateEvent::ProfitLocked { amount } => "ProfitLocked { amount: "@ + shortest_text(amount)
            + " }"@,
        StateEvent::MomentumContinues => "MomentumContinues"@,
        StateEvent::ScaleComplete { new_lots } => "ScaleComplete { new_lots: "@ + shortest_text(new_lots)
            + " }"@,
        StateEvent::MaxScalesReached => "MaxScalesReached"@,
        StateEvent::TakeProfitHit => "TakeProfitHit"@,
        StateEvent::StopLossHit => "StopLossHit"@,
        StateEvent::MomentumDecay => "MomentumDecay"@,
        StateEvent::StallTimeout => "StallTimeout"@,
        StateEvent::ReversalDetected => "ReversalDetected"@,
        StateEvent::SpreadExpanded => "SpreadExpanded"@,
        StateEvent::PositionClosed => "PositionClosed"@,
        StateEvent::CooldownComplete => "CooldownComplete"@,
        StateEvent::KillSwitchTriggered => "KillSwitchTriggered"@,
    }
}

/// The text for each refusal, where the two symbols are how those of the state and of the
/// event are written.
pub open spec fn refusal_text(
    error: TransitionError,
    state_symbol: Seq<char>,
    event_symbol: Seq<char>,
) -> Seq<char> {
    match error {
        TransitionError::Invalid { state, event } => "Invalid transition: "@ + state_text(
            state,
            state_symbol,
        ) + " -> "@ + event_text(event, event_symbol),
        TransitionError::CooldownNotComplete { remaining_ms } => "Cooldown not complete, "@
            + text::numeral(remaining_ms as nat) + "ms remaining"@,
        TransitionError::ClockOutOfRange => "Clock out of range"@,
    }
}

fn name_direction(x: Direction) -> (r: &'static str)
    ensures
        r@ == direction_name(x),
{
    match x {
        Direction::Long => "Long",
        Direction::Short => "Short",
    }
}

fn name_signal(x: SignalType) -> (r: &'static str)
    ensures
        r@ == signal_name(x),
{
    match x {
        SignalType::Momentum => "Momentum",
        SignalType::Reversion => "Reversion",
    }
}

fn name_reason(x: ExitReason) -> (r: &'static str)
    ensures
        r@ == reason_name(x),
{
    match x {
        ExitReason::TakeProfitHit => "TakeProfitHit",
        ExitReason::StopLossHit => "StopLossHit",
        ExitReason::MomentumDecay => "MomentumDecay",
        ExitReason::StallTimeout => "StallTimeout",
        ExitReason::ReversalDetected => "ReversalDetected",
        ExitReason::SpreadExpansion => "SpreadExpansion",
        ExitReason::ManualExit => "ManualExit",
        ExitReason::KillSwitch => "KillSwitch",
    }
}

/// Writes a state with its fields, where `symbol` is how its symbol is written.
pub fn word_state(state: &TradingState, symbol: &str) -> (r: String)
    ensures
        r@ == state_text(*state, symbol@),
{
    match state {
        TradingState::Idle => "Idle".to_owned(),
        TradingState::Qualifying { started_at_ms, momentum_direction, signal_type, .. } => {
            let mut out: String = "Qualifying { symbol: ".to_owned();
            out.append(symbol);
            out.append(", started_at_ms: ");
            out.append(text::decimal(*started_at_ms).as_str());
            out.append(", momentum_direction: ");
            out.append(name_direction(*momentum_direction));
            out.append(", signal_type: ");
            out.append(name_signal(*signal_type));
            out.append(" }");
            out
        },
        TradingState::EntryReady { direction, calculated_lots, sl_pips, timeout_at_ms, .. } => {
            let mut out: String = "EntryReady { symbol: ".to_owned();
            out.append(symbol);
            out.append(", direction: ");
            out.append(name_direction(*direction));
            out.append(", calculated_lots: ");
            out.append(shortest_decimal(*calculated_lots).as_str());
            out.append(", sl_pips: ");
            out.append(shortest_decimal(*sl_pips).as_str());
            out.append(", timeout_at_ms: ");
            out.append(text::decimal(*timeout_at_ms).as_str());
            out.append(" }");
            out
        },
        TradingState::PositionOpen { direction, entry_price, current_lots, sl_pips, tp_pips, entry_time_ms, ticket, .. } => {
            let mut out: String = "PositionOpen { symbol: ".to_owned();
            out.append(symbol);
            out.append(", direction: ");
            out.append(name_direction(*direction));
            out.append(", entry_price: ");
            out.append(shortest_decimal(*entry_price).as_str());
            out.append(", current_lots: ");
            out.append(shortest_decimal(*current_lots).as_str());
            out.append(", sl_pips: ");
            out.append(shortest_decimal(*sl_pips).as_str());
            out.append(", tp_pips: ");
            out.append(shortest_decimal(*tp_pips).as_str());
            out.append(", entry_time_ms: ");
            out.append(text::decimal(*entry_time_ms).as_str());
            out.append(", ticket: ");
            out.append(text::decimal(*ticket).as_str());
            out.append(" }");
            out
        },
        TradingState::Scaling { direction, entry_price, current_lots, sl_pips, tp_pips, started_at_ms, ticket, .. } => {
            let mut out: String = "Scaling { symbol: ".to_owned();
            out.append(symbol);
            out.append(", direction: ");
            out.append(name_direction(*direction));
            out.append(", entry_price: ");
            out.append(shortest_decimal(*entry_price).as_str());
            out.append(", current_lots: ");
            out.append(shortest_decimal(*current_lots).as_str());
            out.append(", sl_pips: ");
            out.append(shortest_decimal(*sl_pips).as_str());
            out.append(", tp_pips: ");
            out.append(shortest_decimal(*tp_pips).as_str());
            out.append(", started_at_ms: ");
            out.append(text::decimal(*started_at_ms).as_str());
            out.append(", ticket: ");
            out.append(text::decimal(*ticket).as_str());
            out.append(" }");
            out
        },
        TradingState::Exiting { direction, reason, started_at_ms, lots, ticket, .. } => {
            let mut out: String = "Exiting { symbol: ".to_owned();
            out.append(symbol);
            out.append(", direction: ");
            out.append(name_direction(*direction));
            out.append(", reason: ");
            out.append(name_reason(*reason));
            out.append(", started_at_ms: ");
            out.append(text::decimal(*started_at_ms).as_str());
            out.append(", lots: ");
            out.append(shortest_decimal(*lots).as_str());
            out.append(", ticket: ");
            out.append(text::decimal(*ticket).as_str());
            out.append(" }");
            out
        },
        TradingState::Cooldown { until_ms } => {
            let mut out: String = "Cooldown { until_ms: ".to_owned();
            out.append(text::decimal(*until_ms).as_str());
            out.append(" }");
            out
        },
    }
}

/// Writes an event with its fields, where `symbol` is how its symbol is written.
pub fn word_event(event: &StateEvent, symbol: &str) -> (r: String)
    ensures
        r@ == event_text(*event, symbol@),
{
    match event {
        StateEvent::MomentumDetected(_, direction) => {
            let mut out: String = "MomentumDetected(".to_owned();
            out.append(symbol);
            out.append(", ");
            out.append(name_direction(*direction));
            out.append(")");
            out
        },
        StateEvent::ReversionDetected(_, direction) => {
            let mut out: String = "ReversionDetected(".to_owned();
            out.append(symbol);
            out.append(", ");
            out.append(name_direction(*direction));
            out.append(")");
            out
        },
        StateEvent::FiltersPass { lots, sl_pips } => {
            let mut out: String = "FiltersPass { lots: ".to_owned();
            out.append(shortest_decimal(*lots).as_str());
            out.append(", sl_pips: ");
            out.append(shortest_decimal(*sl_pips).as_str());
            out.append(" }");
            out
        },
        StateEvent::FiltersReject => "FiltersReject".to_owned(),
        StateEvent::OrderFilled { price, ticket } => {
            let mut out: String = "OrderFilled { price: ".to_owned();
            out.append(shortest_decimal(*price).as_str());
            out.append(", ticket: ");
            out.append(text::decimal(*ticket).as_str());
            out.append(" }");
            out
        },
        StateEvent::OrderTimeout => "OrderTimeout".to_owned(),
        StateEvent::ProfitLocked { amount } => {
            let mut out: String = "ProfitLocked { amount: ".to_owned();
            out.append(shortest_decimal(*amount).as_str());
            out.append(" }");
            out
        },
        StateEvent::MomentumContinues => "MomentumContinues".to_owned(),
        StateEvent::ScaleComplete { new_lots } => {
            let mut out: String = "ScaleComplete { new_lots: ".to_owned();
            out.append(shortest_decimal(*new_lots).as_str());
            out.append(" }");
            out
        },
        StateEvent::MaxScalesReached => "MaxScalesReached".to_owned(),
        StateEvent::TakeProfitHit => "TakeProfitHit".to_owned(),
        StateEvent::StopLossHit => "StopLossHit".to_owned(),
        StateEvent::MomentumDecay => "MomentumDecay".to_owned(),
        StateEvent::StallTimeout => "StallTimeout".to_owned(),
        StateEvent::ReversalDetected => "ReversalDetected".to_owned(),
        StateEvent::SpreadExpanded => "SpreadExpanded".to_owned(),
        StateEvent::PositionClosed => "PositionClosed".to_owned(),
        StateEvent::CooldownComplete => "CooldownComplete".to_owned(),
        StateEvent::KillSwitchTriggered => "KillSwitchTriggered".to_owned(),
    }
}

/// Writes a refusal, where the two symbols are how those of the state and of the event are
/// written.
pub fn word_refusal(error: &TransitionError, state_symbol: &str, event_symbol: &str) -> (r: String)
    ensures
        r@ == refusal_text(*error, state_symbol@, event_symbol@),
{
    match error {
        TransitionError::Invalid { state, event } => {
            let mut out: String = "Invalid transition: ".to_owned();
            out.append(word_state(state, state_symbol).as_str());
            out.append(" -> ");
            out.append(word_event(event, event_symbol).as_str());
            out
        },
        TransitionError::CooldownNotComplete { remaining_ms } => {
            let mut out: String = "Cooldown not complete, ".to_owned();
            out.append(text::decimal(*remaining_ms).as_str());
            out.append("ms remaining");
            out
        },
        TransitionError::ClockOutOfRange => "Clock out of range".to_owned(),
    }
}

impl TransitionError {
    /// The symbols that the state and the event of a refusal name.
    pub open spec fn symbols(&self) -> (Seq<char>, Seq<char>) {
        match *self {
            TransitionError::Invalid { state, event } => (
                symbol_in_state(state),
                symbol_in_event(event),
            ),
            _ => (Seq::empty(), Seq::empty()),
        }
    }

    /// The refusal in words.
    pub fn describe(&self) -> (r: String)
        ensures
            r@ == refusal_text(*self, quoted(self.symbols().0), quoted(self.symbols().1)),
    {
        match self {
            TransitionError::Invalid { state, event } => {
                let state_symbol: String = match state {
                    TradingState::Qualifying { symbol, .. } => quote(symbol.as_str()),
                    TradingState::EntryReady { symbol, .. } => quote(symbol.as_str()),
                    TradingState::PositionOpen { symbol, .. } => quote(symbol.as_str()),
                    TradingState::Scaling { symbol, .. } => quote(symbol.as_str()),
                    TradingState::Exiting { symbol, .. } => quote(symbol.as_str()),
                    _ => String::new(),
                };
                let event_symbol: String = match event {
                    StateEvent::MomentumDetected(symbol, _) => quote(symbol.as_str()),
                    StateEvent::ReversionDetected(symbol, _) => quote(symbol.as_str()),
                    _ => String::new(),
                };
                word_refusal(self, state_symbol.as_str(), event_symbol.as_str())
            },
            _ => word_refusal(self, "", ""),
        }
    }
}

} // verus!
