//! Trade journal: the completed trades, one line each, as comma-separated values.
use vstd::prelude::*;
use crate::clock;
use crate::decimal;
use crate::double::Double;
use crate::state_machine::{Direction, ExitReason, TradingState};
use crate::text;
use crate::ActiveTrade;

pub mod laws;

verus! {

/// Decimals of a price in the journal.
pub const PRICE_DECIMALS: u32 = 5;

/// Decimals of lots and money in the journal.
pub const AMOUNT_DECIMALS: u32 = 2;

/// Where completed trades are written down.
pub struct TradeJournal {
    file_path: String,
}

/// A completed trade.
#[derive(Debug)]
pub struct JournalEntry {
    pub trade_id: u64,
    pub symbol: String,
    pub direction: Option<Direction>,
    pub entry_time_ms: u64,
    pub exit_time_ms: u64,
    pub entry_price: Double,
    /// Approximated from the profit.
    pub exit_price: Double,
    pub lots: Double,
    pub realized_pnl: Double,
    pub exit_reason: ExitReason,
}

/// The direction that a state with a position shows.
pub open spec fn direction_shown(state: TradingState) -> Option<Direction> {
    match state {
        TradingState::PositionOpen { direction, .. } => Some(direction),
        TradingState::Exiting { direction, .. } => Some(direction),
        _ => None,
    }
}

/// The name of a direction in the journal.
pub open spec fn direction_name(direction: Option<Direction>) -> Seq<char> {
    match direction {
        Some(Direction::Long) => "Long"@,
        Some(Direction::Short) => "Short"@,
        None => "Unknown"@,
    }
}

/// The name of an exit in the journal.
pub open spec fn reason_name(reason: ExitReason) -> Seq<char> {
    match reason {
        ExitReason::TakeProfitHit => "TakeProfitHit"@,
        ExitReason::StopLossHit => "StopLossHit"@,
        ExitReason::MomentumDecay => "MomentumDecay"@,
        ExitReason::StallTimeout => "StallTimeout"@,
        ExitReason::ReversalDetected => "ReversalDetected"@,
        ExitReason::SpreadExpansion => "SpreadExpansion"@,
        ExitReason::ManualExit => "ManualExit"@,
        ExitReason::KillSwitch => "KillSwitch"@,
    }
}

/// The entry for a trade that had a run and ended at time `now`.
pub open spec fn entry_for(trade: ActiveTrade, reason: ExitReason, now: u64) -> Option<
    JournalEntry,
> {
    match trade.active_run {
        Some(run) => Some(
            JournalEntry {
                trade_id: trade.id,
                symbol: trade.symbol,
                direction: direction_shown(trade.state_machine.state()),
                entry_time_ms: run.entry_time_ms,
                exit_time_ms: now,
                entry_price: run.entry_price,
                exit_price: run.entry_price.sum(
                    run.total().quotient(run.current_lots.product(Double::of_integer(100000))),
                ),
                lots: run.current_lots,
                realized_pnl: run.total(),
                exit_reason: reason,
            },
        ),
        None => None,
    }
}

impl TradeJournal {
    /// Where the journal is kept.
    pub closed spec fn path(&self) -> Seq<char> {
        self.file_path@
    }

    pub fn new(path: &str) -> (r: TradeJournal)
        ensures
            r.path() == path@,
    {
        TradeJournal { file_path: path.to_owned() }
    }

    /// Where the journal is kept.
    pub fn file_path(&self) -> (r: &str)
        ensures
            r@ == self.path(),
    {
        self.file_path.as_str()
    }

    /// What a new journal starts with. A journal that is there already goes on as it is.
    pub fn header(&self, exists: bool) -> (r: Option<&'static str>)
        ensures
            r is Some <==> !exists,
            r is Some ==> r->0@
                == "trade_id,symbol,direction,entry_time_ms,exit_time_ms,entry_price,exit_price,lots,realized_pnl,exit_reason\n"@,
    {
        if exists {
            return None;
        }
        Some(
            "trade_id,symbol,direction,entry_time_ms,exit_time_ms,entry_price,exit_price,lots,realized_pnl,exit_reason\n",
        )
    }

    /// The entry for a trade that ends now, by the wall clock. A trade without a run leaves
    /// none.
    pub fn log_trade(&self, trade: &ActiveTrade, exit_reason: ExitReason) -> (r: Option<
        JournalEntry,
    >)
        ensures
            exists|reading: std::time::SystemTime|
                r == entry_for(
                    *trade,
                    exit_reason,
                    clock::timestamp_of(#[trigger] clock::elapsed(reading)),
                ),
    {
        let now: u64 = clock::now_ms();
        self.log_trade_at(trade, exit_reason, now)
    }

    /// The entry for a trade that ends at time `now`.
    pub fn log_trade_at(&self, trade: &ActiveTrade, exit_reason: ExitReason, now: u64) -> (r:
        Option<JournalEntry>)
        ensures
            r == entry_for(*trade, exit_reason, now),
    {
        let direction: Option<Direction> = match trade.state_machine.current_state() {
            TradingState::PositionOpen { direction, .. } => Some(direction),
            TradingState::Exiting { direction, .. } => Some(direction),
            _ => None,
        };
        match &trade.active_run {
            Some(run) => {
                let total: Double = run.total_pnl();
                let contract: Double = run.current_lots.times(Double::from_u64(100000));
                Some(
                    JournalEntry {
                        trade_id: trade.id,
                        symbol: trade.symbol.clone(),
                        direction,
                        entry_time_ms: run.entry_time_ms,
                        exit_time_ms: now,
                        entry_price: run.entry_price,
                        exit_price: run.entry_price.plus(total.over(contract)),
                        lots: run.current_lots,
                        realized_pnl: total,
                        exit_reason,
                    },
                )
            },
            None => None,
        }
    }
}

/// A line of the journal.
pub open spec fn line_of(entry: JournalEntry) -> Seq<char> {
    text::numeral(entry.trade_id as nat) + ","@ + entry.symbol@ + ","@ + direction_name(
        entry.direction,
    ) + ","@ + text::numeral(entry.entry_time_ms as nat) + ","@ + text::numeral(
        entry.exit_time_ms as nat,
    ) + ","@ + decimal::fixed_text(entry.entry_price, PRICE_DECIMALS as nat) + ","@
        + decimal::fixed_text(entry.exit_price, PRICE_DECIMALS as nat) + ","@
        + decimal::fixed_text(entry.lots, AMOUNT_DECIMALS as nat) + ","@ + decimal::fixed_text(
        entry.realized_pnl,
        AMOUNT_DECIMALS as nat,
    ) + ","@ + reason_name(entry.exit_reason) + "\n"@
}

impl JournalEntry {
    /// The line of the journal for this entry.
    pub fn line(&self) -> (r: String)
        ensures
            r@ == line_of(*self),
    {
        let direction: &'static str = match self.direction {
            Some(Direction::Long) => "Long",
            Some(Direction::Short) => "Short",
            None => "Unknown",
        };
        let reason: &'static str = match self.exit_reason {
            ExitReason::TakeProfitHit => "TakeProfitHit",
            ExitReason::StopLossHit => "StopLossHit",
            ExitReason::MomentumDecay => "MomentumDecay",
            ExitReason::StallTimeout => "StallTimeout",
            ExitReason::ReversalDetected => "ReversalDetected",
            ExitReason::SpreadExpansion => "SpreadExpansion",
            ExitReason::ManualExit => "ManualExit",
            ExitReason::KillSwitch => "KillSwitch",
        };
        let mut line: String = text::decimal(self.trade_id);
        line.append(",");
        line.append(self.symbol.as_str());
        line.append(",");
        line.append(direction);
        line.append(",");
        line.append(text::decimal(self.entry_time_ms).as_str());
        line.append(",");
        line.append(text::decimal(self.exit_time_ms).as_str());
        line.append(",");
        line.append(decimal::fixed(self.entry_price, PRICE_DECIMALS).as_str());
        line.append(",");
        line.append(decimal::fixed(self.exit_price, PRICE_DECIMALS).as_str());
        line.append(",");
        line.append(decimal::fixed(self.lots, AMOUNT_DECIMALS).as_str());
        line.append(",");
        line.append(decimal::fixed(self.realized_pnl, AMOUNT_DECIMALS).as_str());
        line.append(",");
        line.append(reason);
        line.append("\n");
        line
    }
}

} // verus!
