//! FxScalpBot core: the execution layer for conservative momentum scalping.
//!
//! - `risk_enforcer`: hard risk limits and position sizing
//! - `kill_switch`: emergency stop
//! - `state_machine`: trade lifecycle
//! - `tick_ingestion`: market data processing
//! - `order_executor`: order and position management
//! - `python_bridge`: strategy signals, with fallbacks for when the strategy is away
//! - `scanner`, `trade_manager`, `session`: the decisions of the main loop
//! - `bridge_client`, `json`: requests to the strategy service and its answers
//! - `trade_journal`: completed trades as comma-separated values
//! - `double`, `rounding`: the binary64 arithmetic that prices, lots and money are held in
//! - `symbol_map`, `text`, `decimal`, `clock`: what the others are built on
use vstd::prelude::*;

pub mod bridge_client;
pub mod clock;
pub mod decimal;
pub mod double;
pub mod json;
pub mod kill_switch;
pub mod order_executor;
pub mod python_bridge;
pub mod risk_enforcer;
pub mod rounding;
pub mod scanner;
pub mod session;
pub mod state_machine;
pub mod symbol_map;
pub mod text;
pub mod tick_ingestion;
pub mod trade_journal;
pub mod trade_manager;

use crate::symbol_map::SymbolMap;
use crate::trade_journal::TradeJournal;

pub use crate::double::Double;
pub use crate::kill_switch::{KillReason, KillSwitch};
pub use crate::order_executor::{Fill, Order, OrderExecutor, OrderSide, OrderStatus, OrderType, Position};
pub use crate::python_bridge::{MomentumSignal, QualificationResult, ReversionSignal, VolatilityRegime};
pub use crate::risk_enforcer::{Account, RiskEnforcer, RiskVeto, TradingRun};
pub use crate::state_machine::{Direction, ExitReason, StateEvent, TradingState, TradingStateMachine};
pub use crate::tick_ingestion::{Tick, TickBuffer, TickIngestion};

verus! {

#[derive(Debug, Clone, Copy)]
pub struct ExecutionConfig {
    pub max_spread_multiplier: Double,
    pub max_spread_pips: Double,
    pub max_latency_ms: u64,
    pub max_slippage_pips: Double,
}

/// Limits of one symbol that stand in place of the general ones.
#[derive(Debug, Clone, Copy, Default)]
pub struct SymbolOverride {
    pub max_spread_multiplier: Option<Double>,
    pub max_spread_pips: Option<Double>,
    pub max_latency_ms: Option<u64>,
    pub max_slippage_pips: Option<Double>,
    pub stall_timeout_ms: Option<u64>,
}

#[derive(Debug, Clone)]
pub struct MarketConfig {
    pub symbols: Vec<String>,
}

#[derive(Debug, Clone, Copy)]
pub struct AccountConfig {
    pub daily_loss_limit_pct: Double,
    pub max_parallel_trades: u32,
    pub max_trades_per_symbol: u32,
    pub max_position_lots: Double,
    pub lot_per_1000: Double,
    pub risk_per_trade_pct: Double,
}

#[derive(Debug, Clone, Copy)]
pub struct ScalingConfig {
    pub max_scales: u8,
    pub min_scale_profit: Double,
    pub max_scale_lots: Double,
    pub profit_scale_ratio: Double,
}

#[derive(Debug, Clone, Copy)]
pub struct ExitConfig {
    pub reversal_threshold_pct: Double,
    pub stall_timeout_ms: u64,
    pub cooldown_seconds: u64,
}

/// Application configuration.
#[derive(Debug, Clone)]
pub struct AppConfig {
    pub market: MarketConfig,
    pub account: AccountConfig,
    pub scaling: ScalingConfig,
    pub exit: ExitConfig,
    pub execution: ExecutionConfig,
    pub overrides: Option<SymbolMap<SymbolOverride>>,
}

impl Default for AppConfig {
    fn default() -> (r: AppConfig)
        ensures
            r.market.symbols@.len() == 1,
            r.market.symbols@[0]@ == "EURUSD"@,
            r.account == (AccountConfig {
                daily_loss_limit_pct: Double::ratio(2, 100),
                max_parallel_trades: 1,
                max_trades_per_symbol: 1,
                max_position_lots: Double::ratio(1, 10),
                lot_per_1000: Double::ratio(1, 100),
                risk_per_trade_pct: Double::ratio(5, 1000),
            }),
            r.scaling == (ScalingConfig {
                max_scales: 3,
                min_scale_profit: Double::of_integer(1),
                max_scale_lots: Double::ratio(1, 10),
                profit_scale_ratio: Double::ratio(5, 10),
            }),
            r.exit == (ExitConfig {
                reversal_threshold_pct: Double::ratio(30, 100),
                stall_timeout_ms: 15000,
                cooldown_seconds: 30,
            }),
            r.execution == (ExecutionConfig {
                max_spread_multiplier: Double::ratio(15, 10),
                max_spread_pips: Double::of_integer(2),
                max_latency_ms: 50,
                max_slippage_pips: Double::of_integer(1),
            }),
            r.overrides is None,
    {
        let mut symbols: Vec<String> = Vec::new();
        symbols.push("EURUSD".to_owned());
        AppConfig {
            market: MarketConfig { symbols },
            account: AccountConfig {
                daily_loss_limit_pct: Double::from_ratio(2, 100),
                max_parallel_trades: 1,
                max_trades_per_symbol: 1,
                max_position_lots: Double::from_ratio(1, 10),
                lot_per_1000: Double::from_ratio(1, 100),
                risk_per_trade_pct: Double::from_ratio(5, 1000),
            },
            scaling: ScalingConfig {
                max_scales: 3,
                min_scale_profit: Double::from_u64(1),
                max_scale_lots: Double::from_ratio(1, 10),
                profit_scale_ratio: Double::from_ratio(5, 10),
            },
            exit: ExitConfig {
                reversal_threshold_pct: Double::from_ratio(30, 100),
                stall_timeout_ms: 15000,
                cooldown_seconds: 30,
            },
            execution: ExecutionConfig {
                max_spread_multiplier: Double::from_ratio(15, 10),
                max_spread_pips: Double::from_u64(2),
                max_latency_ms: 50,
                max_slippage_pips: Double::from_u64(1),
            },
            overrides: None,
        }
    }
}

/// A single trade in progress.
pub struct ActiveTrade {
    pub id: u64,
    pub symbol: String,
    pub state_machine: TradingStateMachine,
    pub active_run: Option<TradingRun>,
    /// The id of a request whose execution is still pending.
    pub pending_req_id: Option<String>,
}

impl ActiveTrade {
    /// A closed position is followed by the full cooldown, and no position is added to more
    /// often than allowed.
    pub open spec fn keeps_limits(&self) -> bool {
        &&& self.state_machine.cooldown() == state_machine::COOLDOWN_MS
        &&& self.state_machine.within_scale_limit()
    }

    pub fn new(id: u64, symbol: String) -> (r: ActiveTrade)
        ensures
            r.id == id,
            r.symbol == symbol,
            r.state_machine.state() == TradingState::Idle,
            r.state_machine.log().len() == 0,
            r.state_machine.cooldown() == state_machine::COOLDOWN_MS,
            r.state_machine.scale_ins() == 0,
            r.active_run is None,
            r.pending_req_id is None,
    {
        ActiveTrade {
            id,
            symbol,
            state_machine: TradingStateMachine::new(),
            active_run: None,
            pending_req_id: None,
        }
    }
}

/// Core application state.
pub struct AppState {
    pub config: AppConfig,
    pub risk_enforcer: RiskEnforcer,
    pub kill_switch: KillSwitch,
    pub active_trades: Vec<ActiveTrade>,
    pub trade_id_counter: u64,
    pub tick_ingestion: TickIngestion,
    pub order_executor: OrderExecutor,
    pub account_balance: Double,
    pub account_equity: Double,
    pub daily_pnl: Double,
    pub open_positions_count: u32,
    pub trade_journal: TradeJournal,
    /// For each symbol whose order failed, the time until which it is left alone.
    pub execution_cooldowns: SymbolMap<u64>,
}

impl AppState {
    /// The parts are in order, no order is accepted once the kill switch is active, the trades
    /// have ids of their own, none above the counter, and each keeps to its cooldown and to
    /// the limit on adding to its position.
    pub open spec fn wf(&self) -> bool {
        &&& self.kill_switch.wf()
        &&& self.tick_ingestion.wf()
        &&& self.order_executor.wf()
        &&& self.kill_switch.active() ==> self.order_executor.halted()
        &&& forall|i: int|
            0 <= i < self.active_trades@.len() ==> (#[trigger] self.active_trades@[i]).id
                <= self.trade_id_counter
        &&& forall|i: int, j: int|
            #![trigger self.active_trades@[i], self.active_trades@[j]]
            0 <= i < j < self.active_trades@.len() ==> self.active_trades@[i].id
                != self.active_trades@[j].id
        &&& forall|i: int|
            0 <= i < self.active_trades@.len() ==> (
            #[trigger] self.active_trades@[i]).keeps_limits()
    }

    pub fn new(config: AppConfig, initial_balance: Double) -> (r: AppState)
        ensures
            r.config == config,
            r.risk_enforcer.limits() == risk_enforcer::configured(config),
            r.risk_enforcer.overrides() == risk_enforcer::configured_overrides(config),
            !r.kill_switch.active(),
            r.active_trades@.len() == 0,
            r.trade_id_counter == 0,
            r.tick_ingestion.buffers() == Map::<Seq<char>, TickBuffer>::empty(),
            r.tick_ingestion.buffer_size() == 1000,
            !r.order_executor.halted(),
            r.order_executor.next_id() == 1,
            r.order_executor.queue().len() == 0,
            r.order_executor.filled().len() == 0,
            r.order_executor.positions() == Map::<Seq<char>, Position>::empty(),
            r.order_executor.tolerance() == config.execution.max_slippage_pips,
            r.account_balance == initial_balance,
            r.account_equity == initial_balance,
            r.daily_pnl == Double::of_integer(0),
            r.open_positions_count == 0,
            r.trade_journal.path() == "logs/trade_journal.csv"@,
            r.execution_cooldowns@ == Map::<Seq<char>, u64>::empty(),
            r.wf(),
    {
        let risk_enforcer: RiskEnforcer = RiskEnforcer::new(&config);
        let order_executor: OrderExecutor = OrderExecutor::new(config.execution.max_slippage_pips);
        AppState {
            config,
            risk_enforcer,
            kill_switch: KillSwitch::new(),
            active_trades: Vec::new(),
            trade_id_counter: 0,
            tick_ingestion: TickIngestion::new(1000),
            order_executor,
            account_balance: initial_balance,
            account_equity: initial_balance,
            daily_pnl: Double::from_u64(0),
            open_positions_count: 0,
            trade_journal: TradeJournal::new("logs/trade_journal.csv"),
            execution_cooldowns: SymbolMap::new(),
        }
    }
}

} // verus!
