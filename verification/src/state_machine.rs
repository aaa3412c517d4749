//! Trading state machine: the lifecycle of one trade. It enforces the valid transitions, and
//! that a position is added to at most three times.
use vstd::prelude::*;
use crate::clock;
use crate::double::Double;

pub mod laws;
pub mod wording;

verus! {

/// Signal types supported by the bot.
#[derive(Debug, Clone, Copy, PartialEq, Eq, Structural)]
pub enum SignalType {
    Momentum,
    Reversion,
}

/// Trade direction.
#[derive(Debug, Clone, Copy, PartialEq, Eq, Structural)]
pub enum Direction {
    Long,
    Short,
}

/// Reasons for exiting a trade.
#[derive(Debug, Clone, Copy, PartialEq, Eq, Structural)]
pub enum ExitReason {
    TakeProfitHit,
    StopLossHit,
    MomentumDecay,
    StallTimeout,
    ReversalDetected,
    SpreadExpansion,
    ManualExit,
    KillSwitch,
}

/// Valid trading states.
#[derive(Debug, PartialEq)]
pub enum TradingState {
    /// Waiting for a signal.
    Idle,
    /// Evaluating entry filters.
    Qualifying {
        symbol: String,
        started_at_ms: u64,
        momentum_direction: Direction,
        signal_type: SignalType,
    },
    /// Filters passed, ready to submit an order.
    EntryReady {
        symbol: String,
        direction: Direction,
        calculated_lots: Double,
        sl_pips: Double,
        timeout_at_ms: u64,
    },
    /// Position is open.
    PositionOpen {
        symbol: String,
        direction: Direction,
        entry_price: Double,
        current_lots: Double,
        sl_pips: Double,
        tp_pips: Double,
        entry_time_ms: u64,
        ticket: u64,
    },
    /// Adding to the position, at most `MAX_SCALE_INS` times.
    Scaling {
        symbol: String,
        direction: Direction,
        entry_price: Double,
        current_lots: Double,
        sl_pips: Double,
        tp_pips: Double,
        started_at_ms: u64,
        ticket: u64,
    },
    /// Closing the position.
    Exiting {
        symbol: String,
        direction: Direction,
        reason: ExitReason,
        started_at_ms: u64,
        lots: Double,
        ticket: u64,
    },
    /// Mandatory cooldown period.
    Cooldown { until_ms: u64 },
}

/// State transition events.
#[derive(Debug, PartialEq)]
pub enum StateEvent {
    MomentumDetected(String, Direction),
    ReversionDetected(String, Direction),
    FiltersPass { lots: Double, sl_pips: Double },
    FiltersReject,
    OrderFilled { price: Double, ticket: u64 },
    OrderTimeout,
    ProfitLocked { amount: Double },
    MomentumContinues,
    ScaleComplete { new_lots: Double },
    MaxScalesReached,
    TakeProfitHit,
    StopLossHit,
    MomentumDecay,
    StallTimeout,
    ReversalDetected,
    SpreadExpanded,
    PositionClosed,
    CooldownComplete,
    KillSwitchTriggered,
}

/// Why an event was refused.
#[derive(Debug, PartialEq)]
pub enum TransitionError {
    /// The state has no transition for the event.
    Invalid { state: TradingState, event: StateEvent },
    /// The cooldown has this long to run.
    CooldownNotComplete { remaining_ms: u64 },
    /// The clock leaves no room for a deadline.
    ClockOutOfRange,
}

/// How long an order may wait for its fill.
pub const ENTRY_TIMEOUT_MS: u64 = 5000;

/// Length of the cooldown after a closed position.
pub const COOLDOWN_MS: u64 = 30000;

/// How many times a position is added to.
pub const MAX_SCALE_INS: u8 = 3;

impl Clone for TradingState {
    fn clone(&self) -> (r: TradingState)
        ensures
            r == *self,
    {
        match self {
            TradingState::Idle => TradingState::Idle,
            TradingState::Qualifying { symbol, started_at_ms, momentum_direction, signal_type } =>
                TradingState::Qualifying {
                symbol: symbol.clone(),
                started_at_ms: *started_at_ms,
                momentum_direction: *momentum_direction,
                signal_type: *signal_type,
            },
            TradingState::EntryReady {
                symbol,
                direction,
                calculated_lots,
                sl_pips,
                timeout_at_ms,
            } => TradingState::EntryReady {
                symbol: symbol.clone(),
                direction: *direction,
                calculated_lots: *calculated_lots,
                sl_pips: *sl_pips,
                timeout_at_ms: *timeout_at_ms,
            },
            TradingState::PositionOpen {
                symbol,
                direction,
                entry_price,
                current_lots,
                sl_pips,
                tp_pips,
                entry_time_ms,
                ticket,
            } => TradingState::PositionOpen {
                symbol: symbol.clone(),
                direction: *direction,
                entry_price: *entry_price,
                current_lots: *current_lots,
                sl_pips: *sl_pips,
                tp_pips: *tp_pips,
                entry_time_ms: *entry_time_ms,
                ticket: *ticket,
            },
            TradingState::Scaling {
                symbol,
                direction,
                entry_price,
                current_lots,
                sl_pips,
                tp_pips,
                started_at_ms,
                ticket,
            } => TradingState::Scaling {
                symbol: symbol.clone(),
                direction: *direction,
                entry_price: *entry_price,
                current_lots: *current_lots,
                sl_pips: *sl_pips,
                tp_pips: *tp_pips,
                started_at_ms: *started_at_ms,
                ticket: *ticket,
            },
            TradingState::Exiting { symbol, direction, reason, started_at_ms, lots, ticket } =>
                TradingState::Exiting {
                symbol: symbol.clone(),
                direction: *direction,
                reason: *reason,
                started_at_ms: *started_at_ms,
                lots: *lots,
                ticket: *ticket,
            },
            TradingState::Cooldown { until_ms } => TradingState::Cooldown { until_ms: *until_ms },
        }
    }
}

impl Clone for StateEvent {
    fn clone(&self) -> (r: StateEvent)
        ensures
            r == *self,
    {
        match self {
            StateEvent::MomentumDetected(symbol, direction) => StateEvent::MomentumDetected(
                symbol.clone(),
                *direction,
            ),
            StateEvent::ReversionDetected(symbol, direction) => StateEvent::ReversionDetected(
                symbol.clone(),
                *direction,
            ),
            StateEvent::FiltersPass { lots, sl_pips } => StateEvent::FiltersPass {
                lots: *lots,
                sl_pips: *sl_pips,
            },
            StateEvent::FiltersReject => StateEvent::FiltersReject,
            StateEvent::OrderFilled { price, ticket } => StateEvent::OrderFilled {
                price: *price,
                ticket: *ticket,
            },
            StateEvent::OrderTimeout => StateEvent::OrderTimeout,
            StateEvent::ProfitLocked { amount } => StateEvent::ProfitLocked { amount: *amount },
            StateEvent::MomentumContinues => StateEvent::MomentumContinues,
            StateEvent::ScaleComplete { new_lots } => StateEvent::ScaleComplete {
                new_lots: *new_lots,
            },
            StateEvent::MaxScalesReached => StateEvent::MaxScalesReached,
            StateEvent::TakeProfitHit => StateEvent::TakeProfitHit,
            StateEvent::StopLossHit => StateEvent::StopLossHit,
            StateEvent::MomentumDecay => StateEvent::MomentumDecay,
            StateEvent::StallTimeout => StateEvent::StallTimeout,
            StateEvent::ReversalDetected => StateEvent::ReversalDetected,
            StateEvent::SpreadExpanded => StateEvent::SpreadExpanded,
            StateEvent::PositionClosed => StateEvent::PositionClosed,
            StateEvent::CooldownComplete => StateEvent::CooldownComplete,
            StateEvent::KillSwitchTriggered => StateEvent::KillSwitchTriggered,
        }
    }
}

/// The exit that an event asks for while a position is open.
pub open spec fn exit_asked(event: StateEvent) -> Option<ExitReason> {
    match event {
        StateEvent::TakeProfitHit => Some(ExitReason::TakeProfitHit),
        StateEvent::StopLossHit => Some(ExitReason::StopLossHit),
        StateEvent::MomentumDecay => Some(ExitReason::MomentumDecay),
        StateEvent::StallTimeout => Some(ExitReason::StallTimeout),
        StateEvent::ReversalDetected => Some(ExitReason::ReversalDetected),
        StateEvent::SpreadExpanded => Some(ExitReason::SpreadExpansion),
        _ => None,
    }
}

/// The symbol and the direction of the trade that a state is about.
pub open spec fn subject(state: TradingState) -> Option<(String, Direction)> {
    match state {
        TradingState::Idle => None,
        TradingState::Qualifying { symbol, momentum_direction, .. } => Some(
            (symbol, momentum_direction),
        ),
        TradingState::EntryReady { symbol, direction, .. } => Some((symbol, direction)),
        TradingState::PositionOpen { symbol, direction, .. } => Some((symbol, direction)),
        TradingState::Scaling { symbol, direction, .. } => Some((symbol, direction)),
        TradingState::Exiting { symbol, direction, .. } => Some((symbol, direction)),
        TradingState::Cooldown { .. } => None,
    }
}

/// Where the kill switch leads from `state` at time `now`: a trade goes to its exit, with
/// neither lots nor a ticket, and where there is no trade the machine goes idle.
pub open spec fn killed_from(state: TradingState, now: u64) -> TradingState {
    match subject(state) {
        Some((symbol, direction)) => TradingState::Exiting {
            symbol,
            direction,
            reason: ExitReason::KillSwitch,
            started_at_ms: now,
            lots: Double::of_integer(0),
            ticket: 0,
        },
        None => TradingState::Idle,
    }
}

/// What follows `state` when `event` arrives at time `now`, in a position that was added to
/// `scale_ins` times.
pub open spec fn transition(
    state: TradingState,
    event: StateEvent,
    now: u64,
    cooldown_ms: u64,
    scale_ins: u8,
) -> Result<TradingState, TransitionError> {
    match (state, event) {
        (_, StateEvent::KillSwitchTriggered) => Ok(killed_from(state, now)),
        (TradingState::Idle, StateEvent::MomentumDetected(symbol, direction)) => Ok(
            TradingState::Qualifying {
                symbol,
                started_at_ms: now,
                momentum_direction: direction,
                signal_type: SignalType::Momentum,
            },
        ),
        (TradingState::Idle, StateEvent::ReversionDetected(symbol, direction)) => Ok(
            TradingState::Qualifying {
                symbol,
                started_at_ms: now,
                momentum_direction: direction,
                signal_type: SignalType::Reversion,
            },
        ),
        (
            TradingState::Qualifying { symbol, momentum_direction, .. },
            StateEvent::FiltersPass { lots, sl_pips },
        ) => if now + ENTRY_TIMEOUT_MS <= u64::MAX {
            Ok(
                TradingState::EntryReady {
                    symbol,
                    direction: momentum_direction,
                    calculated_lots: lots,
                    sl_pips,
                    timeout_at_ms: (now + ENTRY_TIMEOUT_MS) as u64,
                },
            )
        } else {
            Err(TransitionError::ClockOutOfRange)
        },
        (TradingState::Qualifying { .. }, StateEvent::FiltersReject) => Ok(TradingState::Idle),
        (
            TradingState::EntryReady { symbol, direction, calculated_lots, sl_pips, .. },
            StateEvent::OrderFilled { price, ticket },
        ) => Ok(
            TradingState::PositionOpen {
                symbol,
                direction,
                entry_price: price,
                current_lots: calculated_lots,
                sl_pips,
                tp_pips: sl_pips.product(Double::of_integer(2)),
                entry_time_ms: now,
                ticket,
            },
        ),
        (TradingState::EntryReady { .. }, StateEvent::OrderTimeout) => Ok(TradingState::Idle),
        (TradingState::PositionOpen { .. }, StateEvent::ProfitLocked { .. }) => Ok(state),
        (
            TradingState::PositionOpen {
                symbol,
                direction,
                entry_price,
                current_lots,
                sl_pips,
                tp_pips,
                ticket,
                ..
            },
            StateEvent::MomentumContinues,
        ) => if scale_ins < MAX_SCALE_INS {
            Ok(
                TradingState::Scaling {
                    symbol,
                    direction,
                    entry_price,
                    current_lots,
                    sl_pips,
                    tp_pips,
                    started_at_ms: now,
                    ticket,
                },
            )
        } else {
            Err(TransitionError::Invalid { state, event })
        },
        (
            TradingState::Scaling {
                symbol,
                direction,
                entry_price,
                current_lots,
                sl_pips,
                tp_pips,
                ticket,
                ..
            },
            StateEvent::ScaleComplete { new_lots },
        ) => Ok(
            TradingState::PositionOpen {
                symbol,
                direction,
                entry_price,
                current_lots: current_lots.sum(new_lots),
                sl_pips,
                tp_pips,
                entry_time_ms: now,
                ticket,
            },
        ),
        (
            TradingState::Scaling { symbol, direction, current_lots, ticket, .. },
            StateEvent::MaxScalesReached,
        ) => Ok(
            TradingState::Exiting {
                symbol,
                direction,
                reason: ExitReason::MomentumDecay,
                started_at_ms: now,
                lots: current_lots,
                ticket,
            },
        ),
        (TradingState::Exiting { .. }, StateEvent::PositionClosed) => if now + cooldown_ms
            <= u64::MAX {
            Ok(TradingState::Cooldown { until_ms: (now + cooldown_ms) as u64 })
        } else {
            Err(TransitionError::ClockOutOfRange)
        },
        (TradingState::Cooldown { until_ms }, StateEvent::CooldownComplete) => if now >= until_ms {
            Ok(TradingState::Idle)
        } else {
            Err(TransitionError::CooldownNotComplete { remaining_ms: (until_ms - now) as u64 })
        },
        (TradingState::PositionOpen { symbol, direction, current_lots, ticket, .. }, _) =>
            match exit_asked(event) {
            Some(reason) => Ok(
                TradingState::Exiting {
                    symbol,
                    direction,
                    reason,
                    started_at_ms: now,
                    lots: current_lots,
                    ticket,
                },
            ),
            None => Err(TransitionError::Invalid { state, event }),
        },
        _ => Err(TransitionError::Invalid { state, event }),
    }
}

/// State machine for the trading lifecycle.
pub struct TradingStateMachine {
    current: TradingState,
    history: Vec<(u64, TradingState, StateEvent)>,
    cooldown_ms: u64,
    scale_ins: u8,
}

/// How often the position was added to once `event` is taken: not at all after a fill, once
/// more after a completed scale-in.
pub open spec fn scale_ins_after(scale_ins: u8, event: StateEvent) -> u8 {
    match event {
        StateEvent::OrderFilled { .. } => 0,
        StateEvent::ScaleComplete { .. } => if scale_ins == u8::MAX {
            u8::MAX
        } else {
            (scale_ins + 1) as u8
        },
        _ => scale_ins,
    }
}

impl TradingStateMachine {
    /// The state that the machine is in.
    pub closed spec fn state(&self) -> TradingState {
        self.current
    }

    /// Every transition taken: its time, the state it left and the event.
    pub closed spec fn log(&self) -> Seq<(u64, TradingState, StateEvent)> {
        self.history@
    }

    /// Length of the cooldown after a closed position.
    pub closed spec fn cooldown(&self) -> u64 {
        self.cooldown_ms
    }

    /// How often the position was added to.
    pub closed spec fn scale_ins(&self) -> u8 {
        self.scale_ins
    }

    /// What `event` leads to at time `now`.
    pub open spec fn next(&self, event: StateEvent, now: u64) -> Result<
        TradingState,
        TransitionError,
    > {
        transition(self.state(), event, now, self.cooldown(), self.scale_ins())
    }

    /// `event`, taken at time `now`, leads from this machine to `after` with result `r`.
    pub open spec fn steps_to(
        &self,
        event: StateEvent,
        now: u64,
        after: TradingStateMachine,
        r: Result<(), TransitionError>,
    ) -> bool {
        match self.next(event, now) {
            Ok(next) => {
                &&& r == Ok::<(), TransitionError>(())
                &&& after.state() == next
                &&& after.log() == self.log().push((now, self.state(), event))
                &&& after.cooldown() == self.cooldown()
                &&& after.scale_ins() == scale_ins_after(self.scale_ins(), event)
            },
            Err(error) => {
                &&& r == Err::<(), TransitionError>(error)
                &&& after == *self
            },
        }
    }
}

impl TradingStateMachine {
    /// What `event` is answered at time `now`.
    pub open spec fn answer(&self, event: StateEvent, now: u64) -> Result<(), TransitionError> {
        match self.next(event, now) {
            Ok(_) => Ok(()),
            Err(error) => Err(error),
        }
    }

    pub fn new() -> (r: TradingStateMachine)
        ensures
            r.state() == TradingState::Idle,
            r.log() == Seq::<(u64, TradingState, StateEvent)>::empty(),
            r.cooldown() == COOLDOWN_MS,
            r.scale_ins() == 0,
    {
        TradingStateMachine {
            current: TradingState::Idle,
            history: Vec::new(),
            cooldown_ms: COOLDOWN_MS,
            scale_ins: 0,
        }
    }

    /// Get current state.
    pub fn current_state(&self) -> (r: TradingState)
        ensures
            r == self.state(),
    {
        self.current.clone()
    }

    /// Get current trade direction if in a trade state.
    pub fn current_direction(&self) -> (r: Option<Direction>)
        ensures
            r == match subject(self.state()) {
                Some((_, direction)) => Some(direction),
                None => None::<Direction>,
            },
    {
        match &self.current {
            TradingState::Qualifying { momentum_direction, .. } => Some(*momentum_direction),
            TradingState::EntryReady { direction, .. } => Some(*direction),
            TradingState::PositionOpen { direction, .. } => Some(*direction),
            TradingState::Scaling { direction, .. } => Some(*direction),
            TradingState::Exiting { direction, .. } => Some(*direction),
            _ => None,
        }
    }

    /// Process an event and transition state, by the wall clock.
    pub fn process_event(&mut self, event: StateEvent) -> (r: Result<(), TransitionError>)
        ensures
            exists|reading: std::time::SystemTime|
                old(self).steps_to(
                    event,
                    clock::timestamp_of(#[trigger] clock::elapsed(reading)),
                    *final(self),
                    r,
                ),
    {
        let now: u64 = clock::now_ms();
        self.process_event_at(event, now)
    }

    /// Process an event that arrives at time `now`. A refused event changes nothing.
    pub fn process_event_at(&mut self, event: StateEvent, now: u64) -> (r: Result<
        (),
        TransitionError,
    >)
        ensures
            old(self).steps_to(event, now, *final(self), r),
            r == old(self).answer(event, now),
    {
        match self.calculate_transition(&event, now) {
            Ok(next) => {
                let left: TradingState = self.current.clone();
                match event {
                    StateEvent::OrderFilled { .. } => {
                        self.scale_ins = 0;
                    },
                    StateEvent::ScaleComplete { .. } => {
                        self.scale_ins = self.scale_ins.saturating_add(1);
                    },
                    _ => {},
                }
                self.history.push((now, left, event));
                self.current = next;
                Ok(())
            },
            Err(error) => Err(error),
        }
    }

    /// Calculate the next state based on current state and event, without taking it.
    pub fn calculate_transition(&self, event: &StateEvent, now: u64) -> (r: Result<
        TradingState,
        TransitionError,
    >)
        ensures
            r == self.next(*event, now),
            *event is KillSwitchTriggered ==> r == Ok::<TradingState, TransitionError>(
                killed_from(self.state(), now),
            ),
            r is Ok ==> keeps_subject(self.state(), *event, r->Ok_0),
    {
        proof {
            if self.next(*event, now) is Ok {
                law_trade_keeps_its_subject(
                    self.state(),
                    *event,
                    now,
                    self.cooldown(),
                    self.scale_ins(),
                );
            }
        }
        match (&self.current, event) {
            // Kill switch can trigger from any state
            (_, StateEvent::KillSwitchTriggered) => Ok(self.killed(now)),
            // IDLE transitions
            (TradingState::Idle, StateEvent::MomentumDetected(symbol, direction)) => Ok(
                TradingState::Qualifying {
                    symbol: symbol.clone(),
                    started_at_ms: now,
                    momentum_direction: *direction,
                    signal_type: SignalType::Momentum,
                },
            ),
            (TradingState::Idle, StateEvent::ReversionDetected(symbol, direction)) => Ok(
                TradingState::Qualifying {
                    symbol: symbol.clone(),
                    started_at_ms: now,
                    momentum_direction: *direction,
                    signal_type: SignalType::Reversion,
                },
            ),
            // QUALIFYING transitions
            (
                TradingState::Qualifying { symbol, momentum_direction, .. },
                StateEvent::FiltersPass { lots, sl_pips },
            ) => match now.checked_add(ENTRY_TIMEOUT_MS) {
                Some(timeout_at_ms) => Ok(
                    TradingState::EntryReady {
                        symbol: symbol.clone(),
                        direction: *momentum_direction,
                        calculated_lots: *lots,
                        sl_pips: *sl_pips,
                        timeout_at_ms,
                    },
                ),
                None => Err(TransitionError::ClockOutOfRange),
            },
            (TradingState::Qualifying { .. }, StateEvent::FiltersReject) => Ok(TradingState::Idle),
            // ENTRY_READY transitions
            (
                TradingState::EntryReady { symbol, direction, calculated_lots, sl_pips, .. },
                StateEvent::OrderFilled { price, ticket },
            ) => Ok(
                TradingState::PositionOpen {
                    symbol: symbol.clone(),
                    direction: *direction,
                    entry_price: *price,
                    current_lots: *calculated_lots,
                    sl_pips: *sl_pips,
                    tp_pips: sl_pips.times(Double::from_u64(2)),
                    entry_time_ms: now,
                    ticket: *ticket,
                },
            ),
            (TradingState::EntryReady { .. }, StateEvent::OrderTimeout) => Ok(TradingState::Idle),
            // POSITION_OPEN transitions
            (TradingState::PositionOpen { .. }, StateEvent::ProfitLocked { .. }) => Ok(
                self.current.clone(),
            ),
            (
                TradingState::PositionOpen {
                    symbol,
                    direction,
                    entry_price,
                    current_lots,
                    sl_pips,
                    tp_pips,
                    ticket,
                    ..
                },
                StateEvent::MomentumContinues,
            ) => {
                if self.scale_ins < MAX_SCALE_INS {
                    Ok(
                        TradingState::Scaling {
                            symbol: symbol.clone(),
                            direction: *direction,
                            entry_price: *entry_price,
                            current_lots: *current_lots,
                            sl_pips: *sl_pips,
                            tp_pips: *tp_pips,
                            started_at_ms: now,
                            ticket: *ticket,
                        },
                    )
                } else {
                    self.refuse(event)
                }
            },
            (TradingState::PositionOpen { symbol, direction, current_lots, ticket, .. }, _) =>
                match exit_reason(event) {
                Some(reason) => Ok(
                    TradingState::Exiting {
                        symbol: symbol.clone(),
                        direction: *direction,
                        reason,
                        started_at_ms: now,
                        lots: *current_lots,
                        ticket: *ticket,
                    },
                ),
                None => self.refuse(event),
            },
            // SCALING transitions
            (
                TradingState::Scaling {
                    symbol,
                    direction,
                    entry_price,
                    current_lots,
                    sl_pips,
                    tp_pips,
                    ticket,
                    ..
                },
                StateEvent::ScaleComplete { new_lots },
            ) => Ok(
                TradingState::PositionOpen {
                    symbol: symbol.clone(),
                    direction: *direction,
                    entry_price: *entry_price,
                    current_lots: current_lots.plus(*new_lots),
                    sl_pips: *sl_pips,
                    tp_pips: *tp_pips,
                    entry_time_ms: now,
                    ticket: *ticket,
                },
            ),
            (
                TradingState::Scaling { symbol, direction, current_lots, ticket, .. },
                StateEvent::MaxScalesReached,
            ) => Ok(
                TradingState::Exiting {
                    symbol: symbol.clone(),
                    direction: *direction,
                    reason: ExitReason::MomentumDecay,
                    started_at_ms: now,
                    lots: *current_lots,
                    ticket: *ticket,
                },
            ),
            // EXITING transitions
            (TradingState::Exiting { .. }, StateEvent::PositionClosed) => match now.checked_add(
                self.cooldown_ms,
            ) {
                Some(until_ms) => Ok(TradingState::Cooldown { until_ms }),
                None => Err(TransitionError::ClockOutOfRange),
            },
            // COOLDOWN transitions
            (TradingState::Cooldown { until_ms }, StateEvent::CooldownComplete) => {
                if now >= *until_ms {
                    Ok(TradingState::Idle)
                } else {
                    Err(TransitionError::CooldownNotComplete { remaining_ms: *until_ms - now })
                }
            },
            // Invalid transition
            _ => self.refuse(event),
        }
    }

    fn refuse(&self, event: &StateEvent) -> (r: Result<TradingState, TransitionError>)
        ensures
            r == Err::<TradingState, TransitionError>(
                TransitionError::Invalid { state: self.state(), event: *event },
            ),
    {
        Err(TransitionError::Invalid { state: self.current.clone(), event: event.clone() })
    }

    /// Where the kill switch leads.
    fn killed(&self, now: u64) -> (r: TradingState)
        ensures
            r == killed_from(self.state(), now),
    {
        let trade: Option<(String, Direction)> = match &self.current {
            TradingState::Qualifying { symbol, momentum_direction, .. } => Some(
                (symbol.clone(), *momentum_direction),
            ),
            TradingState::EntryReady { symbol, direction, .. } => Some(
                (symbol.clone(), *direction),
            ),
            TradingState::PositionOpen { symbol, direction, .. } => Some(
                (symbol.clone(), *direction),
            ),
            TradingState::Scaling { symbol, direction, .. } => Some((symbol.clone(), *direction)),
            TradingState::Exiting { symbol, direction, .. } => Some((symbol.clone(), *direction)),
            _ => None,
        };
        match trade {
            Some((symbol, direction)) => TradingState::Exiting {
                symbol,
                direction,
                reason: ExitReason::KillSwitch,
                started_at_ms: now,
                lots: Double::from_u64(0),
                ticket: 0,
            },
            None => TradingState::Idle,
        }
    }

    /// Force a transition (for testing and recovery only).
    pub fn transition_to(&mut self, state: TradingState)
        ensures
            final(self).state() == state,
            final(self).log() == old(self).log(),
            final(self).cooldown() == old(self).cooldown(),
            final(self).scale_ins() == old(self).scale_ins(),
    {
        self.current = state;
    }
}

impl Default for TradingStateMachine {
    fn default() -> (r: TradingStateMachine)
        ensures
            r.state() == TradingState::Idle,
            r.log() == Seq::<(u64, TradingState, StateEvent)>::empty(),
            r.cooldown() == COOLDOWN_MS,
            r.scale_ins() == 0,
    {
        TradingStateMachine::new()
    }
}

fn exit_reason(event: &StateEvent) -> (r: Option<ExitReason>)
    ensures
        r == exit_asked(*event),
{
    match event {
        StateEvent::TakeProfitHit => Some(ExitReason::TakeProfitHit),
        StateEvent::StopLossHit => Some(ExitReason::StopLossHit),
        StateEvent::MomentumDecay => Some(ExitReason::MomentumDecay),
        StateEvent::StallTimeout => Some(ExitReason::StallTimeout),
        StateEvent::ReversalDetected => Some(ExitReason::ReversalDetected),
        StateEvent::SpreadExpanded => Some(ExitReason::SpreadExpansion),
        _ => None,
    }
}

/// The kill switch is accepted in every state: a trade goes to its exit at that time, with
/// the kill switch as the reason and with neither lots nor a ticket, also where it was
/// exiting for another reason, and where there is no trade the machine goes idle.
pub proof fn law_kill_switch_always_accepted(
    state: TradingState,
    now: u64,
    cooldown_ms: u64,
    scale_ins: u8,
)
    ensures
        transition(state, StateEvent::KillSwitchTriggered, now, cooldown_ms, scale_ins)
            == match subject(state) {
            Some((symbol, direction)) => Ok::<TradingState, TransitionError>(
                TradingState::Exiting {
                    symbol,
                    direction,
                    reason: ExitReason::KillSwitch,
                    started_at_ms: now,
                    lots: Double::of_integer(0),
                    ticket: 0,
                },
            ),
            None => Ok(TradingState::Idle),
        },
        subject(state) is None <==> state is Idle || state is Cooldown,
{
}

/// The events that a state takes, but for the kill switch, which every state takes.
pub open spec fn takes_event(
    state: TradingState,
    event: StateEvent,
    now: u64,
    scale_ins: u8,
) -> bool {
    match state {
        TradingState::Idle => event is MomentumDetected || event is ReversionDetected,
        TradingState::Qualifying { .. } => event is FiltersPass || event is FiltersReject,
        TradingState::EntryReady { .. } => event is OrderFilled || event is OrderTimeout,
        TradingState::PositionOpen { .. } => {
            ||| event is ProfitLocked
            ||| event is MomentumContinues && scale_ins < MAX_SCALE_INS
            ||| event is TakeProfitHit
            ||| event is StopLossHit
            ||| event is MomentumDecay
            ||| event is StallTimeout
            ||| event is ReversalDetected
            ||| event is SpreadExpanded
        },
        TradingState::Scaling { .. } => event is ScaleComplete || event is MaxScalesReached,
        TradingState::Exiting { .. } => event is PositionClosed,
        TradingState::Cooldown { until_ms } => event is CooldownComplete && now >= until_ms,
    }
}

/// Each state takes its own events, and the kill switch, and no others.
pub proof fn law_each_state_takes_its_events(
    state: TradingState,
    event: StateEvent,
    now: u64,
    cooldown_ms: u64,
    scale_ins: u8,
)
    requires
        now + ENTRY_TIMEOUT_MS <= u64::MAX,
        now + cooldown_ms <= u64::MAX,
    ensures
        transition(state, event, now, cooldown_ms, scale_ins) is Ok <==> takes_event(
            state,
            event,
            now,
            scale_ins,
        ) || event is KillSwitchTriggered,
{
}

/// The ticket of a position.
pub open spec fn ticket_of(state: TradingState) -> Option<u64> {
    match state {
        TradingState::PositionOpen { ticket, .. } => Some(ticket),
        TradingState::Scaling { ticket, .. } => Some(ticket),
        TradingState::Exiting { ticket, .. } => Some(ticket),
        _ => None,
    }
}

/// The stop distance of a trade.
pub open spec fn stop_of(state: TradingState) -> Option<Double> {
    match state {
        TradingState::EntryReady { sl_pips, .. } => Some(sl_pips),
        TradingState::PositionOpen { sl_pips, .. } => Some(sl_pips),
        TradingState::Scaling { sl_pips, .. } => Some(sl_pips),
        _ => None,
    }
}

/// From one state to the next, a running trade keeps its symbol, its direction, its stop and,
/// unless the kill switch ends it, its ticket, as far as both states carry them.
pub open spec fn keeps_subject(state: TradingState, event: StateEvent, next: TradingState) -> bool {
    &&& subject(state) is Some && subject(next) is Some ==> subject(next) == subject(state)
    &&& ticket_of(state) is Some && ticket_of(next) is Some && event !is KillSwitchTriggered
        ==> ticket_of(next) == ticket_of(state)
    &&& stop_of(state) is Some && stop_of(next) is Some ==> stop_of(next) == stop_of(state)
}

/// No transition moves a running trade to another symbol, side, ticket or stop.
pub proof fn law_trade_keeps_its_subject(
    state: TradingState,
    event: StateEvent,
    now: u64,
    cooldown_ms: u64,
    scale_ins: u8,
)
    requires
        transition(state, event, now, cooldown_ms, scale_ins) is Ok,
    ensures
        keeps_subject(
            state,
            event,
            transition(state, event, now, cooldown_ms, scale_ins)->Ok_0,
        ),
{
}

impl TradingStateMachine {
    /// The position was added to no more than the allowed number of times, and less often
    /// while it is being added to.
    pub open spec fn within_scale_limit(&self) -> bool {
        &&& self.scale_ins() <= MAX_SCALE_INS
        &&& self.state() is Scaling ==> self.scale_ins() < MAX_SCALE_INS
    }
}

/// However a machine runs, no position is added to more than the allowed number of times.
pub proof fn law_scale_ins_are_limited(
    before: TradingStateMachine,
    event: StateEvent,
    now: u64,
    after: TradingStateMachine,
    r: Result<(), TransitionError>,
)
    requires
        before.within_scale_limit(),
        before.steps_to(event, now, after, r),
    ensures
        after.within_scale_limit(),
{
}

/// A position that was added to the allowed number of times refuses to be added to again, and
/// stays open as it is.
pub proof fn law_full_position_refuses_to_scale(
    before: TradingStateMachine,
    now: u64,
    after: TradingStateMachine,
    r: Result<(), TransitionError>,
)
    requires
        before.state() is PositionOpen,
        before.scale_ins() >= MAX_SCALE_INS,
        before.steps_to(StateEvent::MomentumContinues, now, after, r),
    ensures
        r is Err,
        after == before,
{
}

/// One round of adding to a position: the momentum goes on, and the scale-in completes.
pub open spec fn scales_once(
    before: TradingStateMachine,
    new_lots: Double,
    started: u64,
    completed: u64,
    after: TradingStateMachine,
) -> bool {
    exists|middle: TradingStateMachine|
        before.steps_to(StateEvent::MomentumContinues, started, middle, Ok(()))
            && #[trigger] middle.steps_to(
            StateEvent::ScaleComplete { new_lots },
            completed,
            after,
            Ok(()),
        )
}

/// A filled order can be added to three times, whatever the sizes and the times, and a fourth
/// time is refused.
pub proof fn law_fourth_scale_in_is_refused(
    ready: TradingStateMachine,
    price: Double,
    ticket: u64,
    filled_at: u64,
    filled: TradingStateMachine,
    lots: (Double, Double, Double),
    started: (u64, u64, u64),
    completed: (u64, u64, u64),
    first: TradingStateMachine,
    second: TradingStateMachine,
    third: TradingStateMachine,
    now: u64,
    last: TradingStateMachine,
    r: Result<(), TransitionError>,
)
    requires
        ready.steps_to(StateEvent::OrderFilled { price, ticket }, filled_at, filled, Ok(())),
        scales_once(filled, lots.0, started.0, completed.0, first),
        scales_once(first, lots.1, started.1, completed.1, second),
        scales_once(second, lots.2, started.2, completed.2, third),
        third.steps_to(StateEvent::MomentumContinues, now, last, r),
    ensures
        third.state() is PositionOpen,
        third.scale_ins() == MAX_SCALE_INS,
        r is Err,
        last == third,
{
}

/// In every state with a position, the profit target is twice the stop distance.
pub open spec fn keeps_reward_ratio(state: TradingState) -> bool {
    match state {
        TradingState::PositionOpen { sl_pips, tp_pips, .. } => tp_pips == sl_pips.product(
            Double::of_integer(2),
        ),
        TradingState::Scaling { sl_pips, tp_pips, .. } => tp_pips == sl_pips.product(
            Double::of_integer(2),
        ),
        _ => true,
    }
}

/// Every transition keeps the profit target at twice the stop distance.
pub proof fn law_reward_ratio_is_kept(
    state: TradingState,
    event: StateEvent,
    now: u64,
    cooldown_ms: u64,
    scale_ins: u8,
)
    requires
        keeps_reward_ratio(state),
        transition(state, event, now, cooldown_ms, scale_ins) is Ok,
    ensures
        keeps_reward_ratio(transition(state, event, now, cooldown_ms, scale_ins)->Ok_0),
{
}

/// A position comes from a filled order that was ready, from the position itself or from a
/// completed scale-in; an order is ready only after the filters passed; and only a signal
/// that arrives while the machine is idle starts qualifying.
pub proof fn law_entry_is_in_stages(
    state: TradingState,
    event: StateEvent,
    now: u64,
    cooldown_ms: u64,
    scale_ins: u8,
)
    requires
        transition(state, event, now, cooldown_ms, scale_ins) is Ok,
    ensures
        match transition(state, event, now, cooldown_ms, scale_ins)->Ok_0 {
            TradingState::PositionOpen { .. } => {
                ||| state is EntryReady && event is OrderFilled
                ||| state is PositionOpen && event is ProfitLocked
                ||| state is Scaling && event is ScaleComplete
            },
            TradingState::Scaling { .. } => state is PositionOpen && event is MomentumContinues,
            TradingState::EntryReady { .. } => state is Qualifying && event is FiltersPass,
            TradingState::Qualifying { .. } => state is Idle && (event is MomentumDetected
                || event is ReversionDetected),
            _ => true,
        },
{
}

/// A position is never dropped: it stays, grows or goes to its exit, and an exit ends in
/// a cooldown (or starts over by the kill switch).
pub proof fn law_position_ends_in_cooldown(
    state: TradingState,
    event: StateEvent,
    now: u64,
    cooldown_ms: u64,
    scale_ins: u8,
)
    requires
        transition(state, event, now, cooldown_ms, scale_ins) is Ok,
    ensures
        ({
            let next = transition(state, event, now, cooldown_ms, scale_ins)->Ok_0;
            &&& (state is PositionOpen || state is Scaling) ==> (next is PositionOpen
                || next is Scaling || next is Exiting)
            &&& state is Exiting ==> (next is Cooldown && event is PositionClosed) || (
            next is Exiting && event is KillSwitchTriggered)
        }),
{
}

/// After a position was closed at time `closed_at`, no event but the kill switch leaves the
/// cooldown before it has run its full length, and then only to the idle state.
pub proof fn law_cooldown_is_mandatory(
    exiting: TradingState,
    closed_at: u64,
    event: StateEvent,
    now: u64,
    cooldown_ms: u64,
    scale_ins: u8,
)
    requires
        exiting is Exiting,
        transition(exiting, StateEvent::PositionClosed, closed_at, cooldown_ms, scale_ins) is Ok,
        event !is KillSwitchTriggered,
    ensures
        ({
            let cooling = transition(
                exiting,
                StateEvent::PositionClosed,
                closed_at,
                cooldown_ms,
                scale_ins,
            )->Ok_0;
            match transition(cooling, event, now, cooldown_ms, scale_ins) {
                Ok(next) => event is CooldownComplete && next is Idle && now >= closed_at
                    + cooldown_ms,
                Err(_) => event is CooldownComplete ==> now < closed_at + cooldown_ms,
            }
        }),
{
}

/// The text for each exit reason.
pub open spec fn exit_text(reason: ExitReason) -> Seq<char> {
    match reason {
        ExitReason::TakeProfitHit => "Take profit hit"@,
        ExitReason::StopLossHit => "Stop loss hit"@,
        ExitReason::MomentumDecay => "Momentum decayed"@,
        ExitReason::StallTimeout => "Price stalled (timeout)"@,
        ExitReason::ReversalDetected => "Reversal detected (30% drawdown)"@,
        ExitReason::SpreadExpansion => "Spread expanded"@,
        ExitReason::ManualExit => "Manual exit"@,
        ExitReason::KillSwitch => "Kill switch activated"@,
    }
}

impl ExitReason {
    /// The reason in words.
    pub fn describe(&self) -> (r: String)
        ensures
            r@ == exit_text(*self),
    {
        let text: &'static str = match self {
            ExitReason::TakeProfitHit => "Take profit hit",
            ExitReason::StopLossHit => "Stop loss hit",
            ExitReason::MomentumDecay => "Momentum decayed",
            ExitReason::StallTimeout => "Price stalled (timeout)",
            ExitReason::ReversalDetected => "Reversal detected (30% drawdown)",
            ExitReason::SpreadExpansion => "Spread expanded",
            ExitReason::ManualExit => "Manual exit",
            ExitReason::KillSwitch => "Kill switch activated",
        };
        text.to_owned()
    }
}

} // verus!
