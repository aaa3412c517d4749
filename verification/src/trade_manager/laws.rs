//! What holds of trades in terms of real numbers: what a move of the price is worth, and what
//! it calls for.
use vstd::prelude::*;
use vstd::arithmetic::power2::*;
use crate::double;
use crate::double::worth::{
    beyond, exact_product, lemma_absolute, lemma_beyond, lemma_extremes, lemma_integer_worth,
    lemma_itself, lemma_minus, lemma_near_floor, lemma_near_keeps_side, lemma_near_widens,
    lemma_negated, lemma_order, lemma_over, lemma_plus, lemma_product_flag,
    lemma_product_with_integer, lemma_ratio_worth, lemma_sized_integer, lemma_sized_is_not_zero,
    lemma_sized_product, lemma_sized_quotient, lemma_sized_unit, lemma_sized_widens, lemma_times,
    lemma_worth, near, ordinary, size, sized,
};
use crate::double::Double;
use crate::order_executor::OrderSide;
use crate::risk_enforcer::{Account, RiskEnforcer, TradingRun};
use crate::scanner::{in_play_on, profit_on};
use crate::state_machine::{
    subject, ticket_of, Direction, ExitReason, SignalType, StateEvent, TradingState,
};
use crate::text;
use crate::tick_ingestion;
use crate::tick_ingestion::laws::{law_pips_are_counted, pip_count};
use crate::tick_ingestion::Tick;
use crate::trade_manager::{
    account_of, awaits, base_stop, cleans_to, close_of, close_settles, closes_for, cooldown_end,
    entries_for, exit_called, gain_in_money, gain_in_pips, holds_symbol, machine_takes, manages, order_event,
    order_for, order_refused, order_settles, others, planned, realized, stop_distance, trade_advances,
    CloseReply, Move, OrderReply,
};
use crate::trade_journal::{entry_for, JournalEntry};
use crate::{ActiveTrade, AppState};

verus! {

/// How far the price at which a position closes has moved in its favour: a long gains as the
/// bid rises, a short as the ask falls.
pub open spec fn favour(direction: Direction, entry_price: Double, tick: Tick) -> real {
    match direction {
        Direction::Long => tick.bid.worth() - entry_price.worth(),
        Direction::Short => entry_price.worth() - tick.ask.worth(),
    }
}

/// A position gains exactly where the price has moved in its favour, and loses exactly where
/// it has moved against it.
pub proof fn law_gain_has_the_side_of_the_move(direction: Direction, entry_price: Double, tick: Tick)
    requires
        entry_price.finite(),
        tick.bid.finite(),
        tick.ask.finite(),
    ensures
        !gain_in_pips(direction, entry_price, tick).undefined(),
        gain_in_pips(direction, entry_price, tick).rank() > 0 <==> favour(
            direction,
            entry_price,
            tick,
        ) > 0 as real,
        gain_in_pips(direction, entry_price, tick).rank() < 0 <==> favour(
            direction,
            entry_price,
            tick,
        ) < 0 as real,
{
    let (a, b) = match direction {
        Direction::Long => (tick.bid, entry_price),
        Direction::Short => (entry_price, tick.ask),
    };
    double::lemma_difference_has_the_sign_of_the_order(a, b);
    lemma_order(a, b);
    lemma_order(b, a);
    lemma_product_with_integer(a.difference(b), 10000);
    lemma_product_with_integer(a.difference(b), 100);
    lemma_product_with_integer(a.difference(b), 1);
}

/// The gain in pips is the move, counted in pips.
pub proof fn law_pips_are_the_move(direction: Direction, entry_price: Double, tick: Tick)
    requires
        entry_price.finite(),
        tick.bid.finite(),
        tick.ask.finite(),
        favour(direction, entry_price, tick) == 0 as real || sized(
            favour(direction, entry_price, tick),
            200,
        ),
    ensures
        gain_in_pips(direction, entry_price, tick).finite(),
        near(
            gain_in_pips(direction, entry_price, tick).worth(),
            favour(direction, entry_price, tick) * pip_count(tick.digits) as real,
            2,
        ),
{
    let (a, b) = match direction {
        Direction::Long => (tick.bid, entry_price),
        Direction::Short => (entry_price, tick.ask),
    };
    let x = favour(direction, entry_price, tick);
    let n = pip_count(tick.digits);
    let m = tick_ingestion::pips_per_unit(tick.digits);
    let pips = gain_in_pips(direction, entry_price, tick);
    law_pips_are_counted(tick.digits);
    lemma_itself(n as real, 0);
    lemma_sized_integer(n as u64);
    if x == 0 as real {
        law_gain_has_the_side_of_the_move(direction, entry_price, tick);
        assert(pips.magnitude() == 0);
        lemma_worth(pips);
        assert(x * n as real == 0 as real) by (nonlinear_arith)
            requires
                x == 0 as real,
        ;
        lemma_itself(0 as real, 2);
    } else {
        lemma_sized_widens(x, 200, 1000);
        lemma_minus(a, b);
        lemma_sized_product(x, n as real, 200, 53);
        lemma_sized_widens(x * n as real, 253, 900);
        lemma_times(a.difference(b), m, x, n as real, 1, 0);
    }
}

/// One with a sign.
proof fn lemma_sign_worth(x: Double)
    requires
        !x.undefined(),
    ensures
        x.sign_of().finite(),
        x.sign_of().worth() == if x.negative() {
            -(1 as real)
        } else {
            1 as real
        },
{
    let one = Double::of_integer(1);
    lemma_integer_worth(1);
    lemma_negated(one);
    double::lemma_integer_is_finite(1);
    if x.negative() {
        assert(x.sign_of() == one.negated());
    } else {
        assert(x.sign_of() == one);
    }
}

/// The gain in money is the move in points, at the value of a point, for all lots. Without a
/// point size a pip is worth ten for one lot.
pub proof fn law_money_is_the_move(
    direction: Direction,
    entry_price: Double,
    lots: Double,
    tick: Tick,
)
    requires
        entry_price.finite(),
        tick.bid.finite(),
        tick.ask.finite(),
        sized(favour(direction, entry_price, tick), 200),
        ordinary(lots),
        ordinary(tick.tick_value),
    ensures
        ordinary(tick.point) ==> {
            let exact = favour(direction, entry_price, tick) / tick.point.worth()
                * tick.tick_value.worth() * lots.worth();
            &&& gain_in_money(direction, entry_price, lots, tick).finite()
            &&& near(gain_in_money(direction, entry_price, lots, tick).worth(), exact, 5)
        },
        tick.point.at_most(Double::of_integer(0)) ==> {
            let exact = favour(direction, entry_price, tick) * pip_count(tick.digits) as real
                * lots.worth() * 10 as real;
            &&& gain_in_money(direction, entry_price, lots, tick).finite()
            &&& near(gain_in_money(direction, entry_price, lots, tick).worth(), exact, 4)
        },
{
    let zero = Double::of_integer(0);
    let x = favour(direction, entry_price, tick);
    let l = lots.worth();
    let v = tick.tick_value.worth();
    let p = tick.point.worth();
    let pips = gain_in_pips(direction, entry_price, tick);
    lemma_integer_worth(0);
    double::lemma_integer_is_finite(0);
    law_gain_has_the_side_of_the_move(direction, entry_price, tick);
    law_pips_are_the_move(direction, entry_price, tick);
    lemma_itself(l, 0);
    lemma_itself(v, 0);
    if ordinary(tick.point) {
        lemma_order(zero, tick.point);
        let price = match direction {
            Direction::Long => tick.bid,
            Direction::Short => tick.ask,
        };
        let m = price.worth() - entry_price.worth();
        lemma_itself(p, 0);
        assert(size(m) == size(x));
        assert(sized(m, 200));
        lemma_sized_widens(m, 200, 1000);
        lemma_minus(price, entry_price);
        let step = price.difference(entry_price);
        lemma_sized_quotient(m, p, 200, 100);
        lemma_sized_widens(m / p, 300, 900);
        lemma_over(step, tick.point, m, p, 1, 0);
        let points = step.quotient(tick.point);
        lemma_absolute(points, m / p, 2);
        let sp = size(m / p);
        assert(sized(sp, 300));
        lemma_sized_product(sp, v, 300, 100);
        lemma_sized_widens(sp * v, 400, 900);
        lemma_times(points.absolute(), tick.tick_value, sp, v, 2, 0);
        lemma_sized_product(sp * v, l, 400, 100);
        lemma_sized_widens(sp * v * l, 500, 900);
        lemma_times(points.absolute().product(tick.tick_value), lots, sp * v, l, 3, 0);
        let e = sp * v * l;
        let gain = points.absolute().product(tick.tick_value).product(lots);
        lemma_sign_worth(pips);
        let s = pips.sign_of().worth();
        lemma_worth(pips);
        let exact = x / p * v * l;
        assert(x != 0 as real) by {
            lemma_sized_is_not_zero(x, 200);
        }
        assert(s == if x < 0 as real {
            -(1 as real)
        } else {
            1 as real
        });
        assert(x / p == sp * s) by {
            let q = m / p;
            let z = x / p;
            assert(q * p == m && z * p == x) by (nonlinear_arith)
                requires
                    q == m / p,
                    z == x / p,
                    p > 0 as real,
            ;
            assert(m >= 0 as real ==> q >= 0 as real) by (nonlinear_arith)
                requires
                    q * p == m,
                    p > 0 as real,
            ;
            assert(m <= 0 as real ==> q <= 0 as real) by (nonlinear_arith)
                requires
                    q * p == m,
                    p > 0 as real,
            ;
            assert(m == x || m == -x);
            assert(m == x ==> q == z) by (nonlinear_arith)
                requires
                    q * p == m,
                    z * p == x,
                    p > 0 as real,
            ;
            assert(m == -x ==> q == -z) by (nonlinear_arith)
                requires
                    q * p == m,
                    z * p == x,
                    p > 0 as real,
            ;
            assert(sp * s == if x < 0 as real {
                -sp
            } else {
                sp
            });
        }
        assert(e * s == exact) by (nonlinear_arith)
            requires
                e == sp * v * l,
                exact == (sp * s) * v * l,
        ;
        lemma_itself(s, 0);
        lemma_sized_unit(s);
        lemma_sized_product(e, s, 500, 1);
        lemma_sized_widens(e * s, 501, 900);
        lemma_times(gain, pips.sign_of(), e, s, 4, 0);
    }
    if tick.point.at_most(zero) {
        assert(!zero.below(tick.point));
        let n = pip_count(tick.digits) as real;
        lemma_integer_worth(10);
        lemma_itself(10 as real, 0);
        lemma_sized_integer(10);
        lemma_sized_integer(pip_count(tick.digits) as u64);
        lemma_sized_product(x, n, 200, 53);
        lemma_sized_product(x * n, l, 253, 100);
        lemma_sized_widens(x * n * l, 353, 900);
        lemma_times(pips, lots, x * n, l, 2, 0);
        lemma_sized_product(x * n * l, 10 as real, 353, 53);
        lemma_sized_widens(x * n * l * 10 as real, 406, 900);
        lemma_times(pips.product(lots), Double::of_integer(10), x * n * l, 10 as real, 3, 0);
    }
}

/// A gain in money is never on the other side of the move.
pub proof fn law_money_is_never_against_the_move(
    direction: Direction,
    entry_price: Double,
    lots: Double,
    tick: Tick,
)
    requires
        entry_price.finite(),
        tick.bid.finite(),
        tick.ask.finite(),
        !lots.negative(),
        !tick.tick_value.negative(),
        !gain_in_money(direction, entry_price, lots, tick).undefined(),
    ensures
        favour(direction, entry_price, tick) > 0 as real ==> gain_in_money(
            direction,
            entry_price,
            lots,
            tick,
        ).rank() >= 0,
        favour(direction, entry_price, tick) < 0 as real ==> gain_in_money(
            direction,
            entry_price,
            lots,
            tick,
        ).rank() <= 0,
{
    law_gain_has_the_side_of_the_move(direction, entry_price, tick);
    double::lemma_integer_is_finite(0);
    double::lemma_integer_is_finite(1);
    double::lemma_integer_is_finite(10);
    let pips = gain_in_pips(direction, entry_price, tick);
    if Double::of_integer(0).below(tick.point) {
        let price = match direction {
            Direction::Long => tick.bid,
            Direction::Short => tick.ask,
        };
        let points = price.difference(entry_price).quotient(tick.point).absolute();
        let value = points.product(tick.tick_value);
        lemma_product_flag(points, tick.tick_value);
        lemma_product_flag(value, lots);
        lemma_product_flag(value.product(lots), pips.sign_of());
        lemma_sign_worth(pips);
        assert(pips.sign_of().negative() == pips.negative());
    } else {
        lemma_product_flag(pips, lots);
        lemma_product_flag(pips.product(lots), Double::of_integer(10));
    }
}

/// Where a position goes by the move of its price, up to rounding: a gain beyond its target
/// takes the profit, a loss beyond three times its stop distance ends it, a smaller loss is
/// held, and a smaller gain ends it only by a reversal or a stall. Whatever ends it closes all
/// its lots.
pub proof fn law_position_goes_by_the_move(
    before: ActiveTrade,
    tick: Tick,
    enforcer: RiskEnforcer,
    now: u64,
    at: u64,
    after: ActiveTrade,
)
    requires
        manages(before, Some(tick), enforcer, now, at, after),
        before.state_machine.state() is PositionOpen,
        tick.bid.finite(),
        tick.ask.finite(),
    ensures
        match before.state_machine.state() {
            TradingState::PositionOpen {
                symbol,
                direction,
                entry_price,
                current_lots,
                sl_pips,
                tp_pips,
                ticket,
                ..
            } => {
                let move_up = favour(direction, entry_price, tick);
                let pips = move_up * pip_count(tick.digits) as real;
                let target = tp_pips.worth();
                let stop = sl_pips.worth() * 3 as real;
                let run = after.active_run->0;
                let exits_for = |reason: ExitReason|
                    after.state_machine.state() == (TradingState::Exiting {
                        symbol,
                        direction,
                        reason,
                        started_at_ms: at,
                        lots: current_lots,
                        ticket,
                    });
                let stays = after.state_machine == before.state_machine;
                entry_price.finite() && ordinary(sl_pips) && ordinary(tp_pips) && (move_up
                    == 0 as real || sized(move_up, 200)) ==> {
                    &&& after.id == before.id
                    &&& after.symbol == before.symbol
                    &&& after.pending_req_id == before.pending_req_id
                    &&& after.active_run is Some
                    &&& beyond(pips, target) ==> exits_for(ExitReason::TakeProfitHit)
                    &&& beyond(target, pips) && beyond(-pips, stop) ==> exits_for(
                        ExitReason::StopLossHit,
                    )
                    &&& pips <= 0 as real && beyond(stop, -pips) ==> stays
                    &&& pips > 0 as real && beyond(target, pips) ==> {
                        let stalled = now - run.last_price_change_ms > enforcer.stall_timeout_of(
                            run.symbol@,
                        );
                        let reversed = enforcer.limits().reversed(
                            run,
                            tick_ingestion::pips_per_unit(tick.digits),
                        );
                        &&& reversed ==> exits_for(ExitReason::ReversalDetected)
                        &&& !reversed && stalled ==> exits_for(ExitReason::StallTimeout)
                        &&& !reversed && !stalled ==> stays
                    }
                }
            },
            _ => true,
        },
{
    match before.state_machine.state() {
        TradingState::PositionOpen { direction, entry_price, sl_pips, tp_pips, .. } => {
            let move_up = favour(direction, entry_price, tick);
            if entry_price.finite() && ordinary(sl_pips) && ordinary(tp_pips) && (move_up
                == 0 as real || sized(move_up, 200)) {
                let x = move_up * pip_count(tick.digits) as real;
                let pips = gain_in_pips(direction, entry_price, tick);
                let target = tp_pips.worth();
                let stop = sl_pips.worth();
                let three = Double::of_integer(3);
                let limit = sl_pips.product(three);
                let zero = Double::of_integer(0);
                law_pips_are_the_move(direction, entry_price, tick);
                lemma_integer_worth(0);
                lemma_integer_worth(3);
                lemma_itself(3 as real, 0);
                lemma_itself(stop, 0);
                lemma_itself(target, 0);
                lemma_sized_integer(3);
                lemma_sized_product(stop, 3 as real, 100, 53);
                lemma_sized_widens(stop * 3 as real, 153, 900);
                lemma_times(sl_pips, three, stop, 3 as real, 0, 0);
                lemma_negated(limit);
                lemma_order(tp_pips, pips);
                lemma_order(pips, limit.negated());
                lemma_order(zero, pips);
                lemma_beyond(pips.worth(), target, x, target, 2, 0);
                lemma_near_keeps_side(pips.worth(), x, 2);
                let edge = stop * 3 as real;
                assert(near(-pips.worth(), -x, 2));
                lemma_beyond(-pips.worth(), limit.worth(), -x, edge, 2, 1);
            }
        },
        _ => {},
    }
}

/// A run follows the price of its position: its floating profit is what the move is worth,
/// and its total is never above its peak. It starts with the position's own price, lots, time and distances.
pub proof fn law_run_follows_the_price(
    before: ActiveTrade,
    tick: Tick,
    enforcer: RiskEnforcer,
    now: u64,
    at: u64,
    after: ActiveTrade,
)
    requires
        manages(before, Some(tick), enforcer, now, at, after),
        before.state_machine.state() is PositionOpen,
        tick.bid.finite(),
        tick.ask.finite(),
    ensures
        after.active_run is Some,
        !after.active_run->0.peak_profit.below(after.active_run->0.total()),
        match before.state_machine.state() {
            TradingState::PositionOpen {
                direction,
                entry_price,
                current_lots,
                sl_pips,
                tp_pips,
                entry_time_ms,
                ..
            } => {
                let move_up = favour(direction, entry_price, tick);
                let run = after.active_run->0;
                &&& entry_price.finite() && sized(move_up, 200) && ordinary(current_lots)
                    && ordinary(tick.tick_value) && ordinary(tick.point) ==> near(
                    run.unrealized_pnl.worth(),
                    move_up / tick.point.worth() * tick.tick_value.worth() * current_lots.worth(),
                    5,
                )
                &&& match before.active_run {
                    Some(held) => {
                        &&& run.symbol == held.symbol
                        &&& run.entry_price == held.entry_price
                        &&& run.current_lots == held.current_lots
                        &&& run.scale_count == held.scale_count
                        &&& run.locked_profit == held.locked_profit
                        &&& run.entry_time_ms == held.entry_time_ms
                        &&& run.sl_pips == held.sl_pips
                        &&& run.tp_pips == held.tp_pips
                        &&& run.last_price_change_ms == now || run.last_price_change_ms
                            == held.last_price_change_ms
                        &&& held.peak_profit == run.peak_profit || held.peak_profit.below(
                            run.peak_profit,
                        )
                    },
                    None => {
                        &&& run.symbol == before.symbol
                        &&& run.entry_price == entry_price
                        &&& run.current_lots == current_lots
                        &&& run.scale_count == 0
                        &&& run.locked_profit.worth() == 0 as real
                        &&& run.entry_time_ms == entry_time_ms
                        &&& run.sl_pips == sl_pips
                        &&& run.tp_pips == tp_pips
                        &&& run.last_price_change_ms == now || run.last_price_change_ms
                            == entry_time_ms
                    },
                }
            },
            _ => true,
        },
{
    lemma_integer_worth(0);
    match before.state_machine.state() {
        TradingState::PositionOpen { direction, entry_price, current_lots, .. } => {
            if entry_price.finite() && sized(favour(direction, entry_price, tick), 200) && ordinary(
                current_lots,
            ) && ordinary(tick.tick_value) && ordinary(tick.point) {
                law_money_is_the_move(direction, entry_price, current_lots, tick);
            }
        },
        _ => {},
    }
}

/// The stop distance that the market calls for, in pips: eight times the usual spread, or
/// twenty where there is none, twice that on a slow line, no less than thirty, a hundred in a
/// wide market and three hundred for gold, and a fifth more for a reversion.
pub open spec fn stop_called_for(
    gold: bool,
    quoted: bool,
    usual_spread: real,
    slow: bool,
    signal_type: SignalType,
) -> real {
    let base = if quoted {
        8 as real * usual_spread
    } else {
        20 as real
    };
    let patient = if slow {
        base * 2 as real
    } else {
        base
    };
    let least = if gold {
        300 as real
    } else if usual_spread > 5 as real {
        100 as real
    } else {
        30 as real
    };
    let distance = if patient < least {
        least
    } else {
        patient
    };
    match signal_type {
        SignalType::Momentum => distance,
        SignalType::Reversion => distance * (12 as real / 10 as real),
    }
}

/// The stop distance of a new trade is the one that the market calls for.
pub proof fn law_stop_follows_the_market(
    symbol: Seq<char>,
    account: Account,
    signal_type: SignalType,
)
    requires
        ordinary(account.avg_spread),
        account.current_spread.finite(),
    ensures
        stop_distance(symbol, account, signal_type).finite(),
        near(
            stop_distance(symbol, account, signal_type).worth(),
            stop_called_for(
                text::occurs(symbol, "XAU"@) || text::occurs(symbol, "GOLD"@),
                account.current_spread.worth() > 0 as real,
                account.avg_spread.worth(),
                account.current_latency_ms > 100,
                signal_type,
            ),
            4,
        ),
{
    let zero = Double::of_integer(0);
    let five = Double::of_integer(5);
    let a = account.avg_spread.worth();
    lemma_integer_worth(0);
    lemma_integer_worth(2);
    lemma_integer_worth(5);
    lemma_integer_worth(8);
    lemma_integer_worth(20);
    lemma_integer_worth(30);
    lemma_integer_worth(100);
    lemma_integer_worth(300);
    lemma_ratio_worth(12, 10);
    lemma_order(zero, account.current_spread);
    lemma_order(five, account.avg_spread);
    lemma_itself(a, 0);
    lemma_itself(8 as real, 0);
    lemma_itself(2 as real, 0);
    lemma_itself(20 as real, 1);
    lemma_sized_integer(8);
    lemma_sized_integer(2);
    lemma_sized_integer(20);
    let quoted = account.current_spread.worth() > 0 as real;
    let base = if quoted {
        account.avg_spread.product(Double::of_integer(8))
    } else {
        Double::of_integer(20)
    };
    let x = if quoted {
        8 as real * a
    } else {
        20 as real
    };
    assert(a * 8 as real == 8 as real * a) by (nonlinear_arith);
    lemma_sized_product(a, 8 as real, 100, 53);
    lemma_sized_widens(a * 8 as real, 153, 900);
    lemma_times(account.avg_spread, Double::of_integer(8), a, 8 as real, 0, 0);
    lemma_sized_widens(20 as real, 53, 153);
    assert(near(base.worth(), x, 1) && base.finite() && sized(x, 153) && x > 0 as real);
    let slow = account.current_latency_ms > 100;
    lemma_sized_product(x, 2 as real, 153, 53);
    lemma_sized_widens(x * 2 as real, 206, 900);
    lemma_times(base, Double::of_integer(2), x, 2 as real, 1, 0);
    let patient = if slow {
        base.product(Double::of_integer(2))
    } else {
        base
    };
    let y = if slow {
        x * 2 as real
    } else {
        x
    };
    lemma_sized_widens(x, 153, 206);
    lemma_near_widens(base.worth(), x, 1, 2);
    assert(near(patient.worth(), y, 2) && patient.finite() && sized(y, 206) && y > 0 as real);
    let floor = if five.below(account.avg_spread) {
        Double::of_integer(100)
    } else {
        Double::of_integer(30)
    };
    let fl = floor.worth();
    lemma_extremes(patient, floor);
    lemma_near_floor(patient.worth(), y, fl, 2);
    let kept = patient.larger(floor);
    let z = if y < fl {
        fl
    } else {
        y
    };
    lemma_extremes(kept, Double::of_integer(300));
    lemma_near_floor(kept.worth(), z, 300 as real, 2);
    let distance = base_stop(symbol, account);
    let gold = text::occurs(symbol, "XAU"@) || text::occurs(symbol, "GOLD"@);
    let d = if gold && z < 300 as real {
        300 as real
    } else {
        z
    };
    assert(distance.finite() && near(distance.worth(), d, 2));
    lemma_sized_integer(30);
    lemma_sized_integer(100);
    lemma_sized_integer(300);
    lemma_sized_widens(30 as real, 53, 206);
    lemma_sized_widens(100 as real, 53, 206);
    lemma_sized_widens(300 as real, 53, 206);
    assert(sized(d, 206));
    let more = 12 as real / 10 as real;
    lemma_sized_product(d, more, 206, 106);
    lemma_sized_widens(d * more, 312, 900);
    lemma_times(distance, Double::ratio(12, 10), d, more, 2, 1);
    lemma_near_widens(distance.worth(), d, 2, 4);
}

/// An order stands as far from the price as its stop distance says: a long stops that far
/// below the ask and aims twice as far above it, and a short the other way round at the bid.
pub proof fn law_order_keeps_its_distances(
    symbol: String,
    tick: Tick,
    direction: Direction,
    lots: Double,
    sl_pips: Double,
)
    requires
        ordinary(tick.bid),
        ordinary(tick.ask),
        ordinary(sl_pips),
    ensures
        ({
            let order = order_for(symbol, Some(tick), direction, lots, sl_pips);
            let distance = sl_pips.worth() / pip_count(tick.digits) as real;
            let k = 281474976710656 as real;
            &&& order.symbol == symbol
            &&& order.volume == lots
            &&& order.slippage == 10
            &&& match direction {
                Direction::Long => {
                    let price = tick.ask.worth();
                    &&& order.side == OrderSide::Buy
                    &&& size(order.sl.worth() - (price - distance)) * k <= price + distance
                    &&& size(order.tp.worth() - (price + 2 as real * distance)) * k <= price
                        + 2 as real * distance
                },
                Direction::Short => {
                    let price = tick.bid.worth();
                    &&& order.side == OrderSide::Sell
                    &&& size(order.sl.worth() - (price + distance)) * k <= price + distance
                    &&& size(order.tp.worth() - (price - 2 as real * distance)) * k <= price
                        + 2 as real * distance
                },
            }
        }),
{
    let n = pip_count(tick.digits) as real;
    let m = tick_ingestion::pips_per_unit(tick.digits);
    let two = Double::of_integer(2);
    let s = sl_pips.worth();
    law_pips_are_counted(tick.digits);
    lemma_integer_worth(2);
    lemma_itself(n, 0);
    lemma_itself(s, 0);
    lemma_itself(2 as real, 0);
    lemma_sized_integer(2);
    lemma_sized_integer(pip_count(tick.digits) as u64);
    lemma_sized_quotient(s, n, 100, 53);
    lemma_sized_widens(s / n, 153, 900);
    lemma_over(sl_pips, m, s, n, 0, 0);
    let stop = sl_pips.quotient(m);
    lemma_sized_product(s, 2 as real, 100, 53);
    lemma_sized_widens(s * 2 as real, 153, 900);
    lemma_times(sl_pips, two, s, 2 as real, 0, 0);
    lemma_sized_quotient(s * 2 as real, n, 153, 53);
    lemma_sized_widens(s * 2 as real / n, 206, 900);
    lemma_over(sl_pips.product(two), m, s * 2 as real, n, 1, 0);
    let target = sl_pips.product(two).quotient(m);
    let d = s / n;
    let e = s * 2 as real / n;
    assert(d > 0 as real && e == 2 as real * d) by (nonlinear_arith)
        requires
            d == s / n,
            e == s * 2 as real / n,
            s > 0 as real,
            n >= 1 as real,
    ;
    lemma_pow2_strictly_increases(100, 300);
    lemma_pow2_strictly_increases(153, 300);
    lemma_pow2_strictly_increases(206, 300);
    let price = match direction {
        Direction::Long => tick.ask,
        Direction::Short => tick.bid,
    };
    lemma_level(price, stop, d);
    lemma_level(price, target, e);
}

/// A level at some distance from a price.
proof fn lemma_level(price: Double, step: Double, d: real)
    requires
        price.finite(),
        step.finite(),
        price.worth() > 0 as real,
        price.worth() <= pow2(300) as real,
        d > 0 as real,
        d <= pow2(300) as real,
        near(step.worth(), d, 1) || near(step.worth(), d, 2),
    ensures
        size(price.sum(step).worth() - (price.worth() + d)) * 281474976710656 as real
            <= price.worth() + d,
        size(price.difference(step).worth() - (price.worth() - d)) * 281474976710656 as real
            <= price.worth() + d,
{
    if near(step.worth(), d, 1) {
        lemma_near_widens(step.worth(), d, 1, 2);
    }
    let p = price.worth();
    let t = step.worth();
    let c = 4503599627370496 as real;
    assert(2int as real * size(d) == 2 as real * d) by (nonlinear_arith)
        requires
            size(d) == d,
    ;
    lemma_pow2_unfold(301);
    lemma_pow2_unfold(302);
    lemma_pow2_strictly_increases(302, 1000);
    lemma_plus(price, step);
    lemma_minus(price, step);
    let (u, v) = (size(p + t), size(p - t));
    assert(1int as real * u == u && 1int as real * v == v) by (nonlinear_arith);
    assert(size(price.sum(step).worth() - (p + t)) * c <= u);
    assert(size(price.difference(step).worth() - (p - t)) * c <= v);
}

/// What a trade asks for is what its state is about: one that is ready asks for its own lots
/// in its own direction, one that exits closes the lots and the ticket of its position on the
/// other side, and one that cools down waits for its time. None asks while a request of it is
/// in flight.
pub proof fn law_trade_asks_for_its_own(state: AppState, trade: ActiveTrade, now: u64)
    ensures
        match trade.state_machine.state() {
            TradingState::EntryReady { direction, calculated_lots, .. } => {
                &&& trade.pending_req_id is None && !state.kill_switch.active() ==> {
                    &&& planned(state, trade, now) is Order
                    &&& planned(state, trade, now)->Order_0.symbol == trade.symbol
                    &&& planned(state, trade, now)->Order_0.volume == calculated_lots
                    &&& planned(state, trade, now)->Order_0.side == OrderSide::Buy <==> direction
                        == Direction::Long
                }
                &&& trade.pending_req_id is Some || state.kill_switch.active() ==> planned(
                    state,
                    trade,
                    now,
                ) is Hold
            },
            TradingState::Exiting { direction, lots, ticket, .. } => {
                &&& trade.pending_req_id is None ==> {
                    &&& planned(state, trade, now) is Close
                    &&& planned(state, trade, now)->Close_0.symbol == trade.symbol
                    &&& planned(state, trade, now)->Close_0.volume == lots
                    &&& planned(state, trade, now)->Close_0.ticket == ticket
                    &&& planned(state, trade, now)->Close_0.side == OrderSide::Sell <==> direction
                        == Direction::Long
                }
                &&& trade.pending_req_id is Some ==> planned(state, trade, now) is Hold
            },
            TradingState::Cooldown { until_ms } => {
                &&& until_ms <= now ==> planned(state, trade, now) == Move::Apply(
                    StateEvent::CooldownComplete,
                )
                &&& now < until_ms ==> planned(state, trade, now) is Hold
            },
            TradingState::Qualifying { .. } => planned(state, trade, now) is Apply,
            _ => planned(state, trade, now) is Hold,
        },
{
}

/// A qualifying trade that passes gets lots by its equity and the stop that the market calls
/// for; one that does not is given up. It passes only with a price.
pub proof fn law_qualified_trade_is_sized(state: AppState, trade: ActiveTrade, now: u64)
    requires
        trade.state_machine.state() is Qualifying,
    ensures
        planned(state, trade, now) == Move::Apply(StateEvent::FiltersReject) || {
            &&& planned(state, trade, now) is Apply
            &&& planned(state, trade, now)->Apply_0 is FiltersPass
            &&& state.tick_ingestion.latest_of(trade.symbol@) is Some
            &&& planned(state, trade, now)->Apply_0->lots == state.risk_enforcer.limits().initial_lots(
                state.account_equity,
            )
        },
{
}

/// A qualifying trade passes exactly with a price, with no loss on the other trades of its
/// symbol while one of them is in play, and with no risk limit in its way. It then gets the
/// stop for its own symbol and its own kind of signal.
pub proof fn law_trades_pass_for_cause(state: AppState, trade: ActiveTrade, now: u64)
    requires
        trade.state_machine.state() is Qualifying,
        profit_on(
            state.active_trades@.filter(|other: ActiveTrade| other.id != trade.id),
            trade.symbol@,
        ).finite(),
    ensures
        ({
            let rest = state.active_trades@.filter(|other: ActiveTrade| other.id != trade.id);
            let count = in_play_on(rest, trade.symbol@);
            let profit = profit_on(rest, trade.symbol@).worth();
            let account = account_of(state, trade.symbol@);
            let passes = planned(state, trade, now) != Move::Apply(StateEvent::FiltersReject);
            &&& passes <==> state.tick_ingestion.latest_of(trade.symbol@) is Some && (count == 0
                || profit >= 0 as real) && state.risk_enforcer.entry_verdict(
                trade.symbol@,
                account,
                count as u32,
            ) is Ok
            &&& passes ==> planned(state, trade, now)->Apply_0->FiltersPass_sl_pips
                == stop_distance(
                trade.symbol@,
                account,
                trade.state_machine.state()->signal_type,
            )
        }),
{
    let rest = state.active_trades@.filter(|other: ActiveTrade| other.id != trade.id);
    assert(others(state.active_trades@, trade.id) == rest);
    lemma_integer_worth(0);
    lemma_order(profit_on(rest, trade.symbol@), Double::of_integer(0));
}

/// The account that a trade is judged by is the session's own, with the spread and the latency
/// of the latest tick of its symbol.
pub proof fn law_account_is_the_sessions(state: AppState, symbol: Seq<char>)
    ensures
        ({
            let account = account_of(state, symbol);
            &&& account.balance == state.account_balance
            &&& account.equity == state.account_equity
            &&& account.daily_pnl == state.daily_pnl
            &&& account.open_positions == state.open_positions_count
            &&& match state.tick_ingestion.latest_of(symbol) {
                Some(tick) => {
                    &&& account.current_spread == tick.spread()
                    &&& account.avg_spread == state.tick_ingestion.buffers()[symbol].average()
                    &&& account.current_latency_ms == tick.latency() as u64
                },
                None => {
                    &&& account.current_spread.worth() == 0 as real
                    &&& account.current_latency_ms == 0
                },
            }
        }),
{
    lemma_integer_worth(0);
}

/// The close that a trade has sells a long and buys a short, all the lots of its position
/// under the position's ticket. A trade has one exactly while it holds a position and no
/// request of it is in flight.
pub proof fn law_close_is_of_the_position(trade: ActiveTrade)
    ensures
        ({
            let state = trade.state_machine.state();
            &&& close_of(trade) is Some <==> trade.pending_req_id is None && (state is PositionOpen
                || state is Scaling || state is Exiting)
            &&& close_of(trade) is Some ==> {
                let close = close_of(trade)->0;
                &&& close.symbol == trade.symbol
                &&& close.side == OrderSide::Sell <==> (subject(state)->0).1 == Direction::Long
                &&& Some(close.ticket) == ticket_of(state)
                &&& state is PositionOpen ==> close.volume == state->PositionOpen_current_lots
                &&& state is Scaling ==> close.volume == state->Scaling_current_lots
                &&& state is Exiting ==> close.volume == state->Exiting_lots
            }
        }),
{
}

/// A position that is held is closed by the list of closes, under the number of its trade and
/// once: the list has the close of each trade that has one, and nothing else, by the numbers
/// of the trades.
pub proof fn law_every_position_is_closed_once(trades: Seq<ActiveTrade>)
    requires
        trades.len() <= usize::MAX,
    ensures
        forall|i: int|
            0 <= i < closes_for(trades).len() ==> {
                let (number, close) = #[trigger] closes_for(trades)[i];
                &&& number < trades.len()
                &&& close_of(trades[number as int]) == Some(close)
            },
        forall|i: int, j: int|
            0 <= i < j < closes_for(trades).len() ==> (#[trigger] closes_for(trades)[i]).0 < (
            #[trigger] closes_for(trades)[j]).0,
        forall|k: int|
            0 <= k < trades.len() && (#[trigger] close_of(trades[k])) is Some ==> closes_for(
                trades,
            ).contains((k as usize, close_of(trades[k])->0)),
    decreases trades.len(),
{
    if trades.len() > 0 {
        let less = trades.drop_last();
        law_every_position_is_closed_once(less);
        let (old_list, list) = (closes_for(less), closes_for(trades));
        let last = trades.len() - 1;
        assert forall|k: int|
            0 <= k < trades.len() && (#[trigger] close_of(trades[k])) is Some implies list.contains(
            (k as usize, close_of(trades[k])->0),
        ) by {
            if k < last {
                assert(close_of(less[k]) is Some);
                let at = old_list.index_of((k as usize, close_of(less[k])->0));
                assert(list[at] == old_list[at]);
            } else {
                assert(list[list.len() - 1] == (k as usize, close_of(trades[k])->0));
            }
        }
        assert forall|i: int| 0 <= i < list.len() implies {
            let (number, close) = #[trigger] list[i];
            &&& number < trades.len()
            &&& close_of(trades[number as int]) == Some(close)
        } by {
            if i < old_list.len() {
                assert(list[i] == old_list[i]);
            }
        }
        assert forall|i: int, j: int| 0 <= i < j < list.len() implies (#[trigger] list[i]).0 < (
        #[trigger] list[j]).0 by {
            assert(list[i] == old_list[i]);
            if j < old_list.len() {
                assert(list[j] == old_list[j]);
            }
        }
    }
}

/// A trade that has ended, and that one alone, adds what it made to the day and leaves its
/// entry for the journal.
pub proof fn law_ended_trades_are_settled(trades: Seq<ActiveTrade>, trade: ActiveTrade, now: u64)
    ensures
        realized(Seq::empty()).worth() == 0 as real,
        entries_for(Seq::empty(), now).len() == 0,
        !(trade.state_machine.state() is Idle) || trade.active_run is None ==> realized(
            trades.push(trade),
        ) == realized(trades),
        !(trade.state_machine.state() is Idle) ==> entries_for(trades.push(trade), now)
            == entries_for(trades, now),
        trade.state_machine.state() is Idle && trade.active_run is Some ==> {
            let before = realized(trades);
            let made = trade.active_run->0.total();
            before.finite() && made.finite() && size(before.worth() + made.worth()) <= pow2(1000) as real
                ==> near(realized(trades.push(trade)).worth(), before.worth() + made.worth(), 1)
        },
        trade.state_machine.state() is Idle ==> match entry_for(
            trade,
            ExitReason::TakeProfitHit,
            now,
        ) {
            Some(entry) => entries_for(trades.push(trade), now) == entries_for(trades, now).push(
                entry,
            ),
            None => entries_for(trades.push(trade), now) == entries_for(trades, now),
        },
{
    lemma_integer_worth(0);
    assert(trades.push(trade).drop_last() =~= trades);
    if trade.state_machine.state() is Idle && trade.active_run is Some {
        let before = realized(trades);
        let made = trade.active_run->0.total();
        if before.finite() && made.finite() && size(before.worth() + made.worth()) <= pow2(1000) as real {
            lemma_plus(before, made);
        }
    }
}

/// The day's profit after a clean-up is the one before it and what the ended trades made.
pub proof fn law_cleanup_adds_to_the_day(
    before: AppState,
    now: u64,
    after: AppState,
    entries: Seq<JournalEntry>,
)
    requires
        cleans_to(before, now, after, entries),
        before.daily_pnl.finite(),
        realized(before.active_trades@).finite(),
        size(before.daily_pnl.worth() + realized(before.active_trades@).worth()) <= pow2(1000) as real,
    ensures
        near(
            after.daily_pnl.worth(),
            before.daily_pnl.worth() + realized(before.active_trades@).worth(),
            1,
        ),
        after.account_balance == before.account_balance,
        after.account_equity == before.account_equity,
{
    lemma_plus(before.daily_pnl, realized(before.active_trades@));
}

/// What the answer to an order comes to for a trade that is ready: a pending order waits under
/// its id, a fill starts the run at its price with the lots of the order, and anything else
/// ends the trade. A refusal, and that alone, holds the symbol, for thirty seconds. No other
/// trade changes.
pub proof fn law_order_answer_is_settled(
    before: AppState,
    i: int,
    reply: OrderReply,
    now: u64,
    at: u64,
    after: AppState,
)
    requires
        0 <= i < before.active_trades@.len(),
        before.active_trades@[i].state_machine.state() is EntryReady,
        before.active_trades@[i].active_run is None,
        order_settles(before, i, Some(reply), now, at, after),
        now + 30000 <= u64::MAX,
    ensures
        ({
            let (old_trade, trade) = (before.active_trades@[i], after.active_trades@[i]);
            let ready = old_trade.state_machine.state();
            let (pending, ok) = (reply.status@ == "pending"@, reply.status@ == "ok"@);
            let filled = !pending && ok && reply.price is Some && reply.ticket is Some;
            &&& pending ==> trade.state_machine == old_trade.state_machine && trade.pending_req_id
                == reply.req_id && trade.active_run is None
            &&& filled ==> {
                &&& trade.active_run is Some
                &&& trade.active_run->0.entry_price == reply.price->0
                &&& trade.active_run->0.current_lots == ready->calculated_lots
                &&& trade.active_run->0.entry_time_ms == at
                &&& trade.active_run->0.sl_pips == ready->EntryReady_sl_pips
            }
            &&& !pending && !filled ==> trade.state_machine.state() is Idle
            &&& !pending ==> trade.pending_req_id == old_trade.pending_req_id
            &&& pending || ok ==> after.execution_cooldowns@ == before.execution_cooldowns@
            &&& !pending && !ok ==> after.execution_cooldowns@
                == before.execution_cooldowns@.insert(old_trade.symbol@, (now + 30000) as u64)
            &&& after.active_trades@.len() == before.active_trades@.len()
            &&& forall|j: int|
                0 <= j < before.active_trades@.len() && j != i ==> #[trigger] after.active_trades@[j]
                    == before.active_trades@[j]
        }),
{
    let event = order_event(Some(reply));
    let middle = choose|middle: AppState|
        {
            &&& if event is None {
                awaits(before, i, reply.req_id, middle)
            } else if order_refused(Some(reply)) {
                holds_symbol(before, i, now, middle)
            } else {
                middle == before
            }
            &&& #[trigger] trade_advances(middle, i, event, now, at, after)
        };
    assert(trade_advances(middle, i, event, now, at, after));
    let held = middle.active_trades@[i];
    let step = choose|step: ActiveTrade|
        {
            &&& machine_takes(held.state_machine, event, at, step.state_machine)
            &&& step.id == held.id
            &&& step.symbol == held.symbol
            &&& step.active_run == held.active_run
            &&& step.pending_req_id == held.pending_req_id
            &&& #[trigger] manages(
                step,
                middle.tick_ingestion.latest_of(held.symbol@),
                middle.risk_enforcer,
                now,
                at,
                after.active_trades@[i],
            )
        };
    assert(machine_takes(held.state_machine, event, at, step.state_machine));
    law_answer_is_taken_as_it_is(reply);
}

/// What the answer to a close comes to for a trade that exits: a pending close waits under its
/// id, and any other answer ends the exit and starts the cooldown.
pub proof fn law_close_answer_is_settled(
    before: AppState,
    i: int,
    reply: Option<CloseReply>,
    now: u64,
    at: u64,
    after: AppState,
)
    requires
        0 <= i < before.active_trades@.len(),
        before.active_trades@[i].state_machine.state() is Exiting,
        before.active_trades@[i].state_machine.cooldown() + at <= u64::MAX,
        close_settles(before, i, reply, now, at, after),
    ensures
        ({
            let (old_trade, trade) = (before.active_trades@[i], after.active_trades@[i]);
            let pending = reply is Some && reply->0.status@ == "pending"@;
            &&& pending ==> trade.state_machine == old_trade.state_machine && trade.pending_req_id
                == reply->0.req_id
            &&& !pending ==> trade.state_machine.state() == (TradingState::Cooldown {
                until_ms: (at + old_trade.state_machine.cooldown()) as u64,
            })
            &&& trade.active_run == old_trade.active_run
            &&& after.execution_cooldowns == before.execution_cooldowns
            &&& forall|j: int|
                0 <= j < before.active_trades@.len() && j != i ==> #[trigger] after.active_trades@[j]
                    == before.active_trades@[j]
        }),
{
    let pending = reply is Some && reply->0.status@ == "pending"@;
    let middle = if pending {
        choose|middle: AppState|
            awaits(before, i, reply->0.req_id, middle) && #[trigger] trade_advances(
                middle,
                i,
                None,
                now,
                at,
                after,
            )
    } else {
        before
    };
    let event = if pending {
        None
    } else {
        Some(StateEvent::PositionClosed)
    };
    assert(trade_advances(middle, i, event, now, at, after));
    let held = middle.active_trades@[i];
    let step = choose|step: ActiveTrade|
        {
            &&& machine_takes(held.state_machine, event, at, step.state_machine)
            &&& step.id == held.id
            &&& step.symbol == held.symbol
            &&& step.active_run == held.active_run
            &&& step.pending_req_id == held.pending_req_id
            &&& #[trigger] manages(
                step,
                middle.tick_ingestion.latest_of(held.symbol@),
                middle.risk_enforcer,
                now,
                at,
                after.active_trades@[i],
            )
        };
    assert(machine_takes(held.state_machine, event, at, step.state_machine));
}

/// What a position calls for by the pips that it is ahead: its target is reached at just the
/// target, and its stop at just three times its distance where that needs no rounding.
/// Between them it may leave only while it is ahead, for a reversal or else for a price that
/// has not moved since before the timeout.
pub proof fn law_exit_is_called_by_the_pips(
    enforcer: RiskEnforcer,
    run: TradingRun,
    pips: Double,
    sl_pips: Double,
    tp_pips: Double,
    multiplier: Double,
    now: u64,
)
    requires
        pips.finite(),
        tp_pips.finite(),
        exact_product(sl_pips, Double::of_integer(3)),
    ensures
        ({
            let ahead = pips.worth();
            let hit = ahead >= tp_pips.worth();
            let lost = ahead <= -(sl_pips.worth() * 3 as real);
            let idle = now > run.last_price_change_ms + enforcer.stall_timeout_of(run.symbol@);
            let turned = enforcer.limits().reversed(run, multiplier);
            let called = exit_called(enforcer, run, pips, sl_pips, tp_pips, multiplier, now);
            &&& hit <==> called == Some(StateEvent::TakeProfitHit)
            &&& !hit && lost <==> called == Some(StateEvent::StopLossHit)
            &&& !hit && !lost && ahead > 0 as real && turned <==> called == Some(
                StateEvent::ReversalDetected,
            )
            &&& !hit && !lost && ahead > 0 as real && !turned && idle <==> called == Some(
                StateEvent::StallTimeout,
            )
            &&& !hit && !lost && (ahead <= 0 as real || (!turned && !idle)) <==> called is None
        }),
{
    let limit = sl_pips.product(Double::of_integer(3));
    lemma_integer_worth(0);
    lemma_integer_worth(3);
    lemma_negated(limit);
    lemma_order(tp_pips, pips);
    lemma_order(pips, limit.negated());
    lemma_order(Double::of_integer(0), pips);
}

/// A failed order holds its symbol for thirty seconds.
pub proof fn law_hold_lasts_thirty_seconds(now: u64)
    requires
        now + 30000 <= u64::MAX,
    ensures
        cooldown_end(now) == now + 30000,
{
}

/// The answer to an order is what it says: a fill with its price and ticket, nothing yet while
/// it is pending, and else a timeout.
pub proof fn law_answer_is_taken_as_it_is(reply: OrderReply)
    ensures
        reply.status@ == "pending"@ ==> order_event(Some(reply)) is None,
        reply.status@ != "pending"@ && reply.status@ == "ok"@ && reply.price is Some
            && reply.ticket is Some ==> order_event(Some(reply)) == Some(
            StateEvent::OrderFilled { price: reply.price->0, ticket: reply.ticket->0 },
        ),
        reply.status@ != "pending"@ && !(reply.status@ == "ok"@ && reply.price is Some
            && reply.ticket is Some) ==> order_event(Some(reply)) == Some(StateEvent::OrderTimeout),
        order_event(None) == Some(StateEvent::OrderTimeout),
        order_refused(Some(reply)) <==> reply.status@ != "pending"@ && reply.status@ != "ok"@,
        order_refused(None),
{
}

} // verus!
