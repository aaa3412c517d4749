//! Risk enforcer: absolute risk limits.
//!
//! This module is the final gate before any order. All limits are hard stops with no
//! exceptions.
use vstd::prelude::*;
use crate::double;
use crate::double::worth::{
    lemma_itself, lemma_order, lemma_sized_product, lemma_sized_widens, lemma_times, near, ordinary,
};
use crate::double::Double;
use crate::symbol_map::SymbolMap;
use crate::{AppConfig, SymbolOverride};

pub mod laws;

verus! {

/// Reasons for vetoing a trade.
#[derive(Debug, Clone, Copy, PartialEq, Eq, Structural)]
pub enum RiskVeto {
    DailyLimitHit,
    MaxParallelTradesReached,
    MaxTradesPerSymbolReached,
    MaxScalesReached,
    InsufficientLockedProfit,
    LotSizeExceeded,
    SpreadTooWide,
    LatencyTooHigh,
    KillSwitchActive,
    ReversalDetected,
    StallTimeout,
}

/// The text for each veto.
pub open spec fn veto_text(veto: RiskVeto) -> Seq<char> {
    match veto {
        RiskVeto::DailyLimitHit => "Daily loss limit reached"@,
        RiskVeto::MaxParallelTradesReached => "Maximum parallel trades reached"@,
        RiskVeto::MaxTradesPerSymbolReached => "Maximum trades for this symbol reached"@,
        RiskVeto::MaxScalesReached => "Maximum scale-ins reached (3)"@,
        RiskVeto::InsufficientLockedProfit => "Not enough locked profit to scale"@,
        RiskVeto::LotSizeExceeded => "Lot size exceeds maximum"@,
        RiskVeto::SpreadTooWide => "Spread exceeds 1.5x average"@,
        RiskVeto::LatencyTooHigh => "Network latency too high"@,
        RiskVeto::KillSwitchActive => "Kill switch is active"@,
        RiskVeto::ReversalDetected => "Momentum reversal detected"@,
        RiskVeto::StallTimeout => "Price stalled - timeout"@,
    }
}

impl RiskVeto {
    /// The veto in words.
    pub fn describe(&self) -> (r: String)
        ensures
            r@ == veto_text(*self),
    {
        let text: &'static str = match self {
            RiskVeto::DailyLimitHit => "Daily loss limit reached",
            RiskVeto::MaxParallelTradesReached => "Maximum parallel trades reached",
            RiskVeto::MaxTradesPerSymbolReached => "Maximum trades for this symbol reached",
            RiskVeto::MaxScalesReached => "Maximum scale-ins reached (3)",
            RiskVeto::InsufficientLockedProfit => "Not enough locked profit to scale",
            RiskVeto::LotSizeExceeded => "Lot size exceeds maximum",
            RiskVeto::SpreadTooWide => "Spread exceeds 1.5x average",
            RiskVeto::LatencyTooHigh => "Network latency too high",
            RiskVeto::KillSwitchActive => "Kill switch is active",
            RiskVeto::ReversalDetected => "Momentum reversal detected",
            RiskVeto::StallTimeout => "Price stalled - timeout",
        };
        text.to_owned()
    }
}

/// Tracks a single trading run (entry and optional scale-ins).
#[derive(Debug)]
pub struct TradingRun {
    pub symbol: String,
    pub entry_price: Double,
    pub current_lots: Double,
    pub scale_count: u8,
    /// Realized profit and loss from partial closes.
    pub locked_profit: Double,
    /// Floating profit and loss.
    pub unrealized_pnl: Double,
    /// Highest total profit and loss achieved.
    pub peak_profit: Double,
    pub entry_time_ms: u64,
    pub last_price_change_ms: u64,
    pub sl_pips: Double,
    pub tp_pips: Double,
}

impl Clone for TradingRun {
    fn clone(&self) -> (r: TradingRun)
        ensures
            r == *self,
    {
        TradingRun {
            symbol: self.symbol.clone(),
            entry_price: self.entry_price,
            current_lots: self.current_lots,
            scale_count: self.scale_count,
            locked_profit: self.locked_profit,
            unrealized_pnl: self.unrealized_pnl,
            peak_profit: self.peak_profit,
            entry_time_ms: self.entry_time_ms,
            last_price_change_ms: self.last_price_change_ms,
            sl_pips: self.sl_pips,
            tp_pips: self.tp_pips,
        }
    }
}

impl TradingRun {
    /// Locked plus unrealized profit and loss.
    pub open spec fn total(&self) -> Double {
        self.locked_profit.sum(self.unrealized_pnl)
    }

    /// The run with its peak raised to its total, where that is higher.
    pub open spec fn with_peak(self) -> TradingRun {
        if self.peak_profit.below(self.total()) {
            TradingRun { peak_profit: self.total(), ..self }
        } else {
            self
        }
    }

    /// The run after a price update at time `now`.
    pub open spec fn repriced(self, new_pnl: Double, now_ms: u64) -> TradingRun {
        let moved = Double::ratio(1, 100000).below(
            new_pnl.difference(self.unrealized_pnl).absolute(),
        );
        TradingRun {
            unrealized_pnl: new_pnl,
            last_price_change_ms: if moved {
                now_ms
            } else {
                self.last_price_change_ms
            },
            ..self
        }.with_peak()
    }

    /// A run at its start: nothing gained, nothing scaled.
    pub open spec fn started(
        symbol: String,
        entry_price: Double,
        initial_lots: Double,
        entry_time_ms: u64,
        sl_pips: Double,
        tp_pips: Double,
    ) -> TradingRun {
        TradingRun {
            symbol,
            entry_price,
            current_lots: initial_lots,
            scale_count: 0,
            locked_profit: Double::of_integer(0),
            unrealized_pnl: Double::of_integer(0),
            peak_profit: Double::of_integer(0),
            entry_time_ms,
            last_price_change_ms: entry_time_ms,
            sl_pips,
            tp_pips,
        }
    }

    pub fn new(
        symbol: String,
        entry_price: Double,
        initial_lots: Double,
        entry_time_ms: u64,
        sl_pips: Double,
        tp_pips: Double,
    ) -> (r: TradingRun)
        ensures
            r == TradingRun::started(
                symbol,
                entry_price,
                initial_lots,
                entry_time_ms,
                sl_pips,
                tp_pips,
            ),
    {
        TradingRun {
            symbol,
            entry_price,
            current_lots: initial_lots,
            scale_count: 0,
            locked_profit: Double::from_u64(0),
            unrealized_pnl: Double::from_u64(0),
            peak_profit: Double::from_u64(0),
            entry_time_ms,
            last_price_change_ms: entry_time_ms,
            sl_pips,
            tp_pips,
        }
    }

    /// Total profit and loss: locked plus unrealized.
    pub fn total_pnl(&self) -> (r: Double)
        ensures
            r == self.total(),
    {
        self.locked_profit.plus(self.unrealized_pnl)
    }

    /// Update peak profit tracking.
    pub fn update_peak(&mut self)
        ensures
            *final(self) == old(self).with_peak(),
    {
        let total: Double = self.total_pnl();
        if total.is_above(self.peak_profit) {
            self.peak_profit = total;
        }
    }

    /// Update price and profit and loss.
    pub fn update_price(&mut self, _new_price: Double, new_pnl: Double, now_ms: u64)
        ensures
            *final(self) == old(self).repriced(new_pnl, now_ms),
    {
        let change: Double = new_pnl.minus(self.unrealized_pnl).abs();
        if change.is_above(Double::from_ratio(1, 100000)) {
            self.last_price_change_ms = now_ms;
        }
        self.unrealized_pnl = new_pnl;
        self.update_peak();
    }
}

/// Account state for risk calculations.
#[derive(Debug, Clone, Copy)]
pub struct Account {
    pub balance: Double,
    pub equity: Double,
    pub daily_pnl: Double,
    pub open_positions: u32,
    pub current_spread: Double,
    pub avg_spread: Double,
    pub current_latency_ms: u64,
}

/// The limits that hold for every symbol without one of its own.
#[derive(Debug, Clone, Copy)]
pub struct RiskLimits {
    /// Absolute daily loss, calculated from the percentage.
    pub daily_loss_limit: Double,
    pub daily_loss_pct: Double,
    pub max_parallel_trades: u32,
    pub max_trades_per_symbol: u32,
    pub max_position_lots: Double,
    /// Base sizing.
    pub lot_per_1000: Double,
    pub max_scales: u8,
    /// Share of the peak whose loss is a reversal.
    pub reversal_threshold: Double,
    pub stall_timeout_ms: u64,
    pub max_spread_multiplier: Double,
    pub max_latency_ms: u64,
    pub risk_per_trade_pct: Double,
    pub min_scale_profit: Double,
    /// Portion of locked profit usable.
    pub profit_scale_ratio: Double,
    pub max_spread_pips: Double,
}

/// Enforces all hard limits.
#[derive(Debug)]
pub struct RiskEnforcer {
    limits: RiskLimits,
    overrides: SymbolMap<SymbolOverride>,
}

/// The limits that a configuration sets, with no balance to reckon the daily loss from yet.
pub open spec fn configured(config: AppConfig) -> RiskLimits {
    RiskLimits {
        daily_loss_limit: Double::of_integer(0),
        daily_loss_pct: config.account.daily_loss_limit_pct,
        max_parallel_trades: config.account.max_parallel_trades,
        max_trades_per_symbol: config.account.max_trades_per_symbol,
        max_position_lots: config.account.max_position_lots,
        lot_per_1000: config.account.lot_per_1000,
        max_scales: config.scaling.max_scales,
        reversal_threshold: config.exit.reversal_threshold_pct,
        stall_timeout_ms: config.exit.stall_timeout_ms,
        max_spread_multiplier: config.execution.max_spread_multiplier,
        max_latency_ms: config.execution.max_latency_ms,
        risk_per_trade_pct: config.account.risk_per_trade_pct,
        min_scale_profit: config.scaling.min_scale_profit,
        profit_scale_ratio: config.scaling.profit_scale_ratio,
        max_spread_pips: config.execution.max_spread_pips,
    }
}

/// The configured overrides; none if the configuration has no section for them.
pub open spec fn configured_overrides(config: AppConfig) -> Map<Seq<char>, SymbolOverride> {
    match config.overrides {
        Some(overrides) => overrides@,
        None => Map::empty(),
    }
}

/// Size of a price pip in quote units, by the symbol's number of decimals.
pub open spec fn point_per_pip(digits: u32) -> Double {
    if digits == 5 || digits == 4 {
        Double::ratio(1, 10000)
    } else if digits == 3 {
        Double::ratio(1, 100)
    } else {
        Double::of_integer(1)
    }
}

/// Rounded to whole hundredths of a lot, then held between one hundredth and the largest
/// position. The lower bound wins where the two conflict.
pub open spec fn tradable_lots(lots: Double, max_position_lots: Double) -> Double {
    lots.product(Double::of_integer(100)).integral().quotient(Double::of_integer(100)).smaller(
        max_position_lots,
    ).larger(Double::ratio(1, 100))
}

/// Share of the available profit that a scale-in may use.
pub open spec fn scale_factor(scale_count: u8) -> Double {
    if scale_count == 0 {
        Double::ratio(3, 10)
    } else if scale_count == 1 {
        Double::ratio(4, 10)
    } else if scale_count == 2 {
        Double::ratio(5, 10)
    } else {
        Double::of_integer(0)
    }
}

/// Lots of a scale-in, linear in the available profit: a thousandth for each unit of it, times
/// the share that it may use.
pub open spec fn linear_lots(available: Double, scale_count: u8) -> Double {
    available.product(Double::ratio(1, 1000)).product(scale_factor(scale_count))
}

impl RiskLimits {
    /// Lots in proportion to the account balance, up to the largest position.
    pub open spec fn initial_lots(self, balance: Double) -> Double {
        balance.quotient(Double::of_integer(1000)).product(self.lot_per_1000).smaller(
            self.max_position_lots,
        )
    }

    /// Value of one pip for one lot.
    pub open spec fn pip_value(tick_value: Double, point: Double, digits: u32) -> Double {
        tick_value.product(
            point_per_pip(digits).quotient(point.larger(Double::ratio(1, 1000000))),
        )
    }

    /// Lots by a fixed share of the equity at risk.
    pub open spec fn risk_based_lots(
        self,
        equity: Double,
        sl_pips: Double,
        tick_value: Double,
        point: Double,
        digits: u32,
    ) -> Double {
        let zero = Double::of_integer(0);
        let pip_value = RiskLimits::pip_value(tick_value, point, digits);
        if sl_pips.at_most(zero) || pip_value.at_most(zero) {
            self.initial_lots(equity)
        } else {
            tradable_lots(
                equity.product(self.risk_per_trade_pct).quotient(sl_pips.product(pip_value)),
                self.max_position_lots,
            )
        }
    }

    /// Whether the next scale-in of `run` is allowed, and with how many lots.
    pub open spec fn scale_verdict(self, run: TradingRun) -> Result<Double, RiskVeto> {
        let available = run.locked_profit.product(self.profit_scale_ratio);
        if run.scale_count >= self.max_scales {
            Err(RiskVeto::MaxScalesReached)
        } else if available.below(self.min_scale_profit) {
            Err(RiskVeto::InsufficientLockedProfit)
        } else {
            Ok(
                linear_lots(available, run.scale_count).smaller(
                    self.max_position_lots.difference(run.current_lots),
                ),
            )
        }
    }

    /// Whether `run`, in profit after a significant peak, has lost too much of it.
    pub open spec fn reversed(self, run: TradingRun, pip_multiplier: Double) -> bool {
        let zero = Double::of_integer(0);
        let peak_pips = run.peak_profit.quotient(run.current_lots).product(pip_multiplier);
        let current = run.total();
        &&& !run.peak_profit.at_most(zero)
        &&& !peak_pips.below(Double::of_integer(3))
        &&& !current.at_most(zero)
        &&& self.reversal_threshold.below(
            run.peak_profit.difference(current).quotient(run.peak_profit),
        )
    }
}

impl RiskEnforcer {
    /// The general limits.
    pub closed spec fn limits(&self) -> RiskLimits {
        self.limits
    }

    /// The symbols with limits of their own.
    pub closed spec fn overrides(&self) -> Map<Seq<char>, SymbolOverride> {
        self.overrides@
    }

    pub open spec fn spread_multiplier_of(&self, symbol: Seq<char>) -> Double {
        if self.overrides().contains_key(symbol)
            && self.overrides()[symbol].max_spread_multiplier is Some {
            self.overrides()[symbol].max_spread_multiplier->0
        } else {
            self.limits().max_spread_multiplier
        }
    }

    pub open spec fn spread_cap_of(&self, symbol: Seq<char>) -> Double {
        if self.overrides().contains_key(symbol) && self.overrides()[symbol].max_spread_pips is Some {
            self.overrides()[symbol].max_spread_pips->0
        } else {
            self.limits().max_spread_pips
        }
    }

    pub open spec fn latency_cap_of(&self, symbol: Seq<char>) -> u64 {
        if self.overrides().contains_key(symbol) && self.overrides()[symbol].max_latency_ms is Some {
            self.overrides()[symbol].max_latency_ms->0
        } else {
            self.limits().max_latency_ms
        }
    }

    pub open spec fn stall_timeout_of(&self, symbol: Seq<char>) -> u64 {
        if self.overrides().contains_key(symbol)
            && self.overrides()[symbol].stall_timeout_ms is Some {
            self.overrides()[symbol].stall_timeout_ms->0
        } else {
            self.limits().stall_timeout_ms
        }
    }

    /// The first limit that a new entry breaks, if it breaks one.
    pub open spec fn entry_verdict(
        &self,
        symbol: Seq<char>,
        account: Account,
        symbol_positions: u32,
    ) -> Result<(), RiskVeto> {
        if account.daily_pnl.below(self.limits().daily_loss_limit.negated()) {
            Err(RiskVeto::DailyLimitHit)
        } else if account.open_positions >= self.limits().max_parallel_trades {
            Err(RiskVeto::MaxParallelTradesReached)
        } else if symbol_positions >= self.limits().max_trades_per_symbol {
            Err(RiskVeto::MaxTradesPerSymbolReached)
        } else if account.avg_spread.product(self.spread_multiplier_of(symbol)).below(
            account.current_spread,
        ) || self.spread_cap_of(symbol).below(account.current_spread) {
            Err(RiskVeto::SpreadTooWide)
        } else if account.current_latency_ms > self.latency_cap_of(symbol) {
            Err(RiskVeto::LatencyTooHigh)
        } else {
            Ok(())
        }
    }

    pub fn new(config: &AppConfig) -> (r: RiskEnforcer)
        ensures
            r.limits() == configured(*config),
            r.overrides() == configured_overrides(*config),
    {
        RiskEnforcer {
            limits: RiskLimits {
                daily_loss_limit: Double::from_u64(0),
                daily_loss_pct: config.account.daily_loss_limit_pct,
                max_parallel_trades: config.account.max_parallel_trades,
                max_trades_per_symbol: config.account.max_trades_per_symbol,
                max_position_lots: config.account.max_position_lots,
                lot_per_1000: config.account.lot_per_1000,
                max_scales: config.scaling.max_scales,
                reversal_threshold: config.exit.reversal_threshold_pct,
                stall_timeout_ms: config.exit.stall_timeout_ms,
                max_spread_multiplier: config.execution.max_spread_multiplier,
                max_latency_ms: config.execution.max_latency_ms,
                risk_per_trade_pct: config.account.risk_per_trade_pct,
                min_scale_profit: config.scaling.min_scale_profit,
                profit_scale_ratio: config.scaling.profit_scale_ratio,
                max_spread_pips: config.execution.max_spread_pips,
            },
            overrides: match &config.overrides {
                Some(overrides) => overrides.clone(),
                None => SymbolMap::new(),
            },
        }
    }

    /// Update daily loss limit based on current account balance.
    pub fn update_daily_limit(&mut self, account_balance: Double)
        ensures
            final(self).limits() == (RiskLimits {
                daily_loss_limit: account_balance.product(old(self).limits().daily_loss_pct),
                ..old(self).limits()
            }),
            final(self).overrides() == old(self).overrides(),
            ordinary(account_balance) && ordinary(old(self).limits().daily_loss_pct) ==> near(
                final(self).limits().daily_loss_limit.worth(),
                account_balance.worth() * old(self).limits().daily_loss_pct.worth(),
                1,
            ),
    {
        proof {
            let pct = self.limits().daily_loss_pct;
            if ordinary(account_balance) && ordinary(pct) {
                let (b, p) = (account_balance.worth(), pct.worth());
                lemma_itself(b, 0);
                lemma_itself(p, 0);
                lemma_sized_product(b, p, 100, 100);
                lemma_sized_widens(b * p, 200, 900);
                lemma_times(account_balance, pct, b, p, 0, 0);
            }
        }
        self.limits.daily_loss_limit = account_balance.times(self.limits.daily_loss_pct);
    }

    /// The applicable `max_spread_multiplier` for a symbol.
    pub fn get_max_spread_multiplier(&self, symbol: &str) -> (r: Double)
        ensures
            r == self.spread_multiplier_of(symbol@),
    {
        match self.overrides.get(symbol) {
            Some(SymbolOverride { max_spread_multiplier: Some(value), .. }) => *value,
            _ => self.limits.max_spread_multiplier,
        }
    }

    /// The applicable `max_spread_pips` for a symbol.
    pub fn get_max_spread_pips(&self, symbol: &str) -> (r: Double)
        ensures
            r == self.spread_cap_of(symbol@),
    {
        match self.overrides.get(symbol) {
            Some(SymbolOverride { max_spread_pips: Some(value), .. }) => *value,
            _ => self.limits.max_spread_pips,
        }
    }

    /// The applicable `max_latency_ms` for a symbol.
    pub fn get_max_latency_ms(&self, symbol: &str) -> (r: u64)
        ensures
            r == self.latency_cap_of(symbol@),
    {
        match self.overrides.get(symbol) {
            Some(SymbolOverride { max_latency_ms: Some(value), .. }) => *value,
            _ => self.limits.max_latency_ms,
        }
    }

    /// The applicable `stall_timeout_ms` for a symbol.
    pub fn get_stall_timeout_ms(&self, symbol: &str) -> (r: u64)
        ensures
            r == self.stall_timeout_of(symbol@),
    {
        match self.overrides.get(symbol) {
            Some(SymbolOverride { stall_timeout_ms: Some(value), .. }) => *value,
            _ => self.limits.stall_timeout_ms,
        }
    }

    /// Check if a new entry is allowed.
    pub fn can_enter(
        &self,
        symbol: &str,
        account: &Account,
        current_symbol_positions: u32,
    ) -> (r: Result<(), RiskVeto>)
        ensures
            r == self.entry_verdict(symbol@, *account, current_symbol_positions),
    {
        // Daily loss limit
        if account.daily_pnl.is_below(self.limits.daily_loss_limit.negate()) {
            return Err(RiskVeto::DailyLimitHit);
        }
        // Global parallel trade limit
        if account.open_positions >= self.limits.max_parallel_trades {
            return Err(RiskVeto::MaxParallelTradesReached);
        }
        // Per-symbol parallel trade limit
        if current_symbol_positions >= self.limits.max_trades_per_symbol {
            return Err(RiskVeto::MaxTradesPerSymbolReached);
        }
        let max_spread_multiplier: Double = self.get_max_spread_multiplier(symbol);
        let max_spread_pips: Double = self.get_max_spread_pips(symbol);
        // Spread against its average
        if account.current_spread.is_above(account.avg_spread.times(max_spread_multiplier)) {
            return Err(RiskVeto::SpreadTooWide);
        }
        // Absolute spread cap
        if account.current_spread.is_above(max_spread_pips) {
            return Err(RiskVeto::SpreadTooWide);
        }
        if account.current_latency_ms > self.get_max_latency_ms(symbol) {
            return Err(RiskVeto::LatencyTooHigh);
        }
        Ok(())
    }

    /// Lots in proportion to the account balance, however small that is: `lot_per_1000` for
    /// each thousand, up to the largest position.
    pub fn calculate_initial_lots(&self, account_balance: Double) -> (r: Double)
        ensures
            r == self.limits().initial_lots(account_balance),
    {
        account_balance.over(Double::from_u64(1000)).times(self.limits.lot_per_1000).min(
            self.limits.max_position_lots,
        )
    }

    fn tradable(&self, lots: Double) -> (r: Double)
        ensures
            r == tradable_lots(lots, self.limits().max_position_lots),
    {
        let hundred: Double = Double::from_u64(100);
        lots.times(hundred).round().over(hundred).min(self.limits.max_position_lots).max(
            Double::from_ratio(1, 100),
        )
    }

    /// Calculate lot size based on a fixed risk percentage of equity:
    /// `equity * risk / (sl_pips * pip value)`.
    pub fn calculate_risk_based_lots(
        &self,
        equity: Double,
        sl_pips: Double,
        tick_value: Double,
        point: Double,
        digits: u32,
    ) -> (r: Double)
        ensures
            r == self.limits().risk_based_lots(equity, sl_pips, tick_value, point, digits),
    {
        let zero: Double = Double::from_u64(0);
        if sl_pips.is_at_most(zero) {
            return self.calculate_initial_lots(equity);
        }
        let risk_amount: Double = equity.times(self.limits.risk_per_trade_pct);
        let pip_size: Double = match digits {
            5 | 4 => Double::from_ratio(1, 10000),
            3 => Double::from_ratio(1, 100),
            _ => Double::from_u64(1),
        };
        let pip_value_per_lot: Double = tick_value.times(
            pip_size.over(point.max(Double::from_ratio(1, 1000000))),
        );
        if pip_value_per_lot.is_at_most(zero) {
            return self.calculate_initial_lots(equity);
        }
        self.tradable(risk_amount.over(sl_pips.times(pip_value_per_lot)))
    }

    /// Check if scaling is allowed and calculate the lot size.
    /// Uses only locked profits, never original capital.
    pub fn can_scale(&self, run: &TradingRun) -> (r: Result<Double, RiskVeto>)
        ensures
            r == self.limits().scale_verdict(*run),
    {
        if run.scale_count >= self.limits.max_scales {
            return Err(RiskVeto::MaxScalesReached);
        }
        let available: Double = run.locked_profit.times(self.limits.profit_scale_ratio);
        if available.is_below(self.limits.min_scale_profit) {
            return Err(RiskVeto::InsufficientLockedProfit);
        }
        let scale_lots: Double = self.calculate_scale_lots(available, run.scale_count);
        Ok(scale_lots.min(self.limits.max_position_lots.minus(run.current_lots)))
    }

    /// Calculate lot size for a scale-in, linear in the available profit.
    fn calculate_scale_lots(&self, available_profit: Double, scale_count: u8) -> (r: Double)
        ensures
            r == linear_lots(available_profit, scale_count),
    {
        let lot_per_dollar: Double = Double::from_ratio(1, 1000);
        let factor: Double = match scale_count {
            0 => Double::from_ratio(3, 10),
            1 => Double::from_ratio(4, 10),
            2 => Double::from_ratio(5, 10),
            _ => Double::from_u64(0),
        };
        available_profit.times(lot_per_dollar).times(factor)
    }

    /// Check if a reversal has occurred. Only triggers after a significant peak, and only
    /// while the run is in profit: losers are left to the stop loss or the stall check.
    pub fn check_reversal(&self, run: &TradingRun, pip_multiplier: Double) -> (r: bool)
        ensures
            r == self.limits().reversed(*run, pip_multiplier),
    {
        let zero: Double = Double::from_u64(0);
        let min_peak_pips: Double = Double::from_u64(3);
        let peak_pips: Double = run.peak_profit.over(run.current_lots).times(pip_multiplier);
        if run.peak_profit.is_at_most(zero) || peak_pips.is_below(min_peak_pips) {
            return false;
        }
        let current_pnl: Double = run.total_pnl();
        if current_pnl.is_at_most(zero) {
            return false;
        }
        let drawdown_pct: Double = run.peak_profit.minus(current_pnl).over(run.peak_profit);
        drawdown_pct.is_above(self.limits.reversal_threshold)
    }

    /// Check if the price has stalled (no movement for the timeout period).
    pub fn check_stall(&self, run: &TradingRun, current_time_ms: u64) -> (r: bool)
        requires
            run.last_price_change_ms <= current_time_ms,
        ensures
            r == (current_time_ms - run.last_price_change_ms > self.stall_timeout_of(run.symbol@)),
            current_time_ms <= run.last_price_change_ms + self.stall_timeout_of(run.symbol@)
                ==> !r,
            current_time_ms > run.last_price_change_ms + self.stall_timeout_of(run.symbol@) ==> r,
    {
        let stall_duration: u64 = current_time_ms - run.last_price_change_ms;
        stall_duration > self.get_stall_timeout_ms(run.symbol.as_str())
    }

    /// Validate that a lot size is within limits.
    pub fn validate_lot_size(&self, lots: Double) -> (r: Result<(), RiskVeto>)
        ensures
            r == if self.limits().max_position_lots.below(lots) {
                Err::<(), RiskVeto>(RiskVeto::LotSizeExceeded)
            } else {
                Ok(())
            },
            lots.finite() && self.limits().max_position_lots.finite() ==> (r is Ok <==> lots.worth()
                <= self.limits().max_position_lots.worth()),
    {
        proof {
            if lots.finite() && self.limits().max_position_lots.finite() {
                lemma_order(self.limits().max_position_lots, lots);
            }
        }
        if lots.is_above(self.limits.max_position_lots) {
            return Err(RiskVeto::LotSizeExceeded);
        }
        Ok(())
    }
}

impl Clone for RiskEnforcer {
    fn clone(&self) -> (r: RiskEnforcer)
        ensures
            r.limits() == self.limits(),
            r.overrides() == self.overrides(),
    {
        RiskEnforcer { limits: self.limits, overrides: self.overrides.clone() }
    }
}

/// A position sized by the risk of its stop is never below one hundredth of a lot.
pub proof fn law_risk_based_lots_have_a_minimum(
    limits: RiskLimits,
    equity: Double,
    sl_pips: Double,
    tick_value: Double,
    point: Double,
    digits: u32,
)
    requires
        !sl_pips.at_most(Double::of_integer(0)),
        !RiskLimits::pip_value(tick_value, point, digits).at_most(Double::of_integer(0)),
    ensures
        Double::ratio(1, 100).at_most(
            limits.risk_based_lots(equity, sl_pips, tick_value, point, digits),
        ),
{
    double::lemma_ratio_is_defined(1, 100);
}

/// No position size is above the configured maximum, where that allows any size at all.
pub proof fn law_lots_have_a_maximum(
    limits: RiskLimits,
    equity: Double,
    sl_pips: Double,
    tick_value: Double,
    point: Double,
    digits: u32,
)
    requires
        !limits.max_position_lots.undefined(),
    ensures
        limits.initial_lots(equity).at_most(limits.max_position_lots),
        Double::ratio(1, 100).at_most(limits.max_position_lots) ==> limits.risk_based_lots(
            equity,
            sl_pips,
            tick_value,
            point,
            digits,
        ).at_most(limits.max_position_lots),
{
}

/// Below the largest position, the size is `lot_per_1000` for each thousand of the balance,
/// for small accounts too.
pub proof fn law_lots_are_proportional(limits: RiskLimits, balance: Double)
    requires
        balance.quotient(Double::of_integer(1000)).product(limits.lot_per_1000).at_most(
            limits.max_position_lots,
        ),
    ensures
        limits.initial_lots(balance) == balance.quotient(Double::of_integer(1000)).product(
            limits.lot_per_1000,
        ),
{
}

/// A larger balance never gets a smaller position.
pub proof fn law_lots_follow_the_balance(limits: RiskLimits, balance: Double, larger: Double)
    requires
        Double::of_integer(0).at_most(balance),
        balance.at_most(larger),
        Double::of_integer(0).at_most(limits.lot_per_1000),
        !balance.quotient(Double::of_integer(1000)).product(limits.lot_per_1000).undefined(),
        !larger.quotient(Double::of_integer(1000)).product(limits.lot_per_1000).undefined(),
    ensures
        limits.initial_lots(balance).at_most(limits.initial_lots(larger)),
{
    let thousand = Double::of_integer(1000);
    double::lemma_integer_is_finite(0);
    double::lemma_integer_is_finite(1000);
    double::lemma_quotient_is_defined(balance, thousand);
    double::lemma_quotient_is_defined(larger, thousand);
    double::lemma_quotient_is_monotone(balance, larger, thousand);
    double::lemma_product_is_monotone(
        balance.quotient(thousand),
        larger.quotient(thousand),
        limits.lot_per_1000,
    );
}

/// An entry is approved only within every limit: the daily loss, the number of trades, in
/// all and for the symbol, the spread, against its average and in pips, and the latency.
pub proof fn law_approved_entry_is_within_limits(
    enforcer: RiskEnforcer,
    symbol: Seq<char>,
    account: Account,
    symbol_positions: u32,
)
    requires
        enforcer.entry_verdict(symbol, account, symbol_positions) is Ok,
    ensures
        !account.daily_pnl.below(enforcer.limits().daily_loss_limit.negated()),
        account.open_positions < enforcer.limits().max_parallel_trades,
        symbol_positions < enforcer.limits().max_trades_per_symbol,
        !account.avg_spread.product(enforcer.spread_multiplier_of(symbol)).below(
            account.current_spread,
        ),
        !enforcer.spread_cap_of(symbol).below(account.current_spread),
        account.current_latency_ms <= enforcer.latency_cap_of(symbol),
{
}

/// A loss beyond the configured share of the balance stops every entry, whatever the
/// symbol and the market.
pub proof fn law_daily_loss_stops_entries(
    before: RiskEnforcer,
    balance: Double,
    after: RiskEnforcer,
    symbol: Seq<char>,
    account: Account,
    symbol_positions: u32,
)
    requires
        after.limits() == (RiskLimits {
            daily_loss_limit: balance.product(before.limits().daily_loss_pct),
            ..before.limits()
        }),
        account.daily_pnl.below(balance.product(before.limits().daily_loss_pct).negated()),
    ensures
        after.entry_verdict(symbol, account, symbol_positions) == Err::<(), RiskVeto>(
            RiskVeto::DailyLimitHit,
        ),
{
}

/// A symbol without limits of its own has the general ones, and a limit that it sets
/// stands in place of the general one.
pub proof fn law_overrides_come_first(enforcer: RiskEnforcer, symbol: Seq<char>)
    ensures
        !enforcer.overrides().contains_key(symbol) ==> {
            &&& enforcer.spread_multiplier_of(symbol) == enforcer.limits().max_spread_multiplier
            &&& enforcer.spread_cap_of(symbol) == enforcer.limits().max_spread_pips
            &&& enforcer.latency_cap_of(symbol) == enforcer.limits().max_latency_ms
            &&& enforcer.stall_timeout_of(symbol) == enforcer.limits().stall_timeout_ms
        },
        enforcer.overrides().contains_key(symbol) ==> {
            let own = enforcer.overrides()[symbol];
            &&& own.max_spread_multiplier is Some ==> enforcer.spread_multiplier_of(symbol)
                == own.max_spread_multiplier->0
            &&& own.max_spread_pips is Some ==> enforcer.spread_cap_of(symbol)
                == own.max_spread_pips->0
            &&& own.max_latency_ms is Some ==> enforcer.latency_cap_of(symbol)
                == own.max_latency_ms->0
            &&& own.stall_timeout_ms is Some ==> enforcer.stall_timeout_of(symbol)
                == own.stall_timeout_ms->0
        },
{
}

/// Scaling looks at locked profit alone: two runs that agree on it, on their size and on
/// their number of scale-ins get the same verdict, whatever their floating profit is.
pub proof fn law_scaling_uses_locked_profit_only(
    limits: RiskLimits,
    run: TradingRun,
    other: TradingRun,
)
    requires
        run.locked_profit == other.locked_profit,
        run.scale_count == other.scale_count,
        run.current_lots == other.current_lots,
    ensures
        limits.scale_verdict(run) == limits.scale_verdict(other),
{
}

/// Without locked profit there is no scale-in.
pub proof fn law_no_scaling_without_locked_profit(limits: RiskLimits, run: TradingRun)
    requires
        run.locked_profit.at_most(Double::of_integer(0)),
        Double::of_integer(0).at_most(limits.profit_scale_ratio),
        Double::of_integer(0).below(limits.min_scale_profit),
        !run.locked_profit.product(limits.profit_scale_ratio).undefined(),
    ensures
        limits.scale_verdict(run) == if run.scale_count >= limits.max_scales {
            Err::<Double, RiskVeto>(RiskVeto::MaxScalesReached)
        } else {
            Err(RiskVeto::InsufficientLockedProfit)
        },
{
    double::lemma_integer_is_finite(0);
    double::lemma_product_not_above_zero(run.locked_profit, limits.profit_scale_ratio);
}

/// More locked profit never gives a smaller scale-in.
pub proof fn law_scaling_follows_locked_profit(limits: RiskLimits, run: TradingRun, more: Double)
    requires
        Double::of_integer(0).at_most(run.locked_profit),
        run.locked_profit.at_most(more),
        Double::of_integer(0).at_most(limits.profit_scale_ratio),
        limits.scale_verdict(run) is Ok,
        !linear_lots(
            run.locked_profit.product(limits.profit_scale_ratio),
            run.scale_count,
        ).undefined(),
        !linear_lots(more.product(limits.profit_scale_ratio), run.scale_count).undefined(),
    ensures
        limits.scale_verdict(TradingRun { locked_profit: more, ..run }) is Ok,
        limits.scale_verdict(run)->Ok_0.at_most(
            limits.scale_verdict(TradingRun { locked_profit: more, ..run })->Ok_0,
        ),
{
    let ratio = limits.profit_scale_ratio;
    let rate = Double::ratio(1, 1000);
    let factor = scale_factor(run.scale_count);
    double::lemma_integer_is_finite(0);
    double::lemma_fraction_is_positive(1, 1000);
    double::lemma_fraction_is_positive(3, 10);
    double::lemma_fraction_is_positive(4, 10);
    double::lemma_fraction_is_positive(5, 10);
    let a = run.locked_profit.product(ratio);
    let b = more.product(ratio);
    assert(!a.undefined() && !b.undefined() && !a.product(rate).undefined() && !b.product(
        rate,
    ).undefined()) by {
        reveal(Double::product);
    }
    double::lemma_product_is_monotone(run.locked_profit, more, ratio);
    double::lemma_product_is_monotone(a, b, rate);
    double::lemma_product_is_monotone(a.product(rate), b.product(rate), factor);
}

/// A scale-in comes only below the maximum number of scale-ins, and never adds more lots
/// than the position may still grow by.
pub proof fn law_scaling_is_capped(limits: RiskLimits, run: TradingRun)
    requires
        limits.scale_verdict(run) is Ok,
        !limits.max_position_lots.difference(run.current_lots).undefined(),
    ensures
        run.scale_count < limits.max_scales,
        limits.scale_verdict(run)->Ok_0.at_most(
            limits.max_position_lots.difference(run.current_lots),
        ),
{
}

/// A reversal is found only while the run is in profit, after a peak in profit.
pub proof fn law_reversal_locks_in_profit(
    limits: RiskLimits,
    run: TradingRun,
    pip_multiplier: Double,
)
    requires
        limits.reversed(run, pip_multiplier),
    ensures
        Double::of_integer(0).below(run.peak_profit),
        Double::of_integer(0).below(run.total()),
{
    double::lemma_integer_is_finite(0);
    reveal(Double::sum);
    reveal(Double::quotient);
}

/// The peak of a run never falls, and a price update leaves it no lower than the total.
pub proof fn law_peak_never_falls(run: TradingRun, new_pnl: Double, now_ms: u64)
    ensures
        run.peak_profit == run.with_peak().peak_profit || run.peak_profit.below(
            run.with_peak().peak_profit,
        ),
        run.peak_profit == run.repriced(new_pnl, now_ms).peak_profit || run.peak_profit.below(
            run.repriced(new_pnl, now_ms).peak_profit,
        ),
        !run.repriced(new_pnl, now_ms).peak_profit.below(run.repriced(new_pnl, now_ms).total()),
{
}

} // verus!
