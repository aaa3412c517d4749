//! What fills and prices make of positions, in terms of real numbers.
use vstd::prelude::*;
use vstd::arithmetic::power2::*;
use crate::double;
use crate::double::worth::{
    lemma_absolute, lemma_integer_worth, lemma_itself, lemma_minus, lemma_near_keeps_side,
    lemma_near_sum, lemma_order, lemma_over, lemma_plus, lemma_sized_integer, lemma_sized_product,
    lemma_sized_quotient, lemma_sized_sum, lemma_sized_widens, lemma_times, near, ordinary, size,
    sized,
};
use crate::double::Double;
use crate::order_executor::{
    after_fill, floating_total, position_of, slippage, Fill, Order, OrderExecutor, OrderSide,
    OrderStatus, OrderType, Position,
};
use crate::tick_ingestion;
use crate::tick_ingestion::laws::{law_pips_are_counted, pip_count};

verus! {

/// A fill on the other side for fewer lots than the position holds takes those lots away and
/// leaves everything else of the position as it was.
pub proof fn law_partial_close_takes_lots_alone(
    positions: Map<Seq<char>, Position>,
    fill: Fill,
    point: Double,
    tick_value: Double,
    digits: u32,
    now: u64,
)
    requires
        positions.contains_key(fill.symbol@),
        positions[fill.symbol@].side != fill.side,
        fill.lots.finite(),
        positions[fill.symbol@].lots.finite(),
        0 as real <= fill.lots.worth() < positions[fill.symbol@].lots.worth(),
        positions[fill.symbol@].lots.worth() <= pow2(1000) as real,
    ensures
        ({
            let held = positions[fill.symbol@];
            let after = position_of(
                after_fill(positions, fill, point, tick_value, digits, now),
                fill.symbol@,
            );
            &&& after is Some
            &&& near(after->0.lots.worth(), held.lots.worth() - fill.lots.worth(), 1)
            &&& after->0.side == held.side
            &&& after->0.entry_price == held.entry_price
            &&& after->0.opened_at_ms == held.opened_at_ms
            &&& after->0 == (Position { lots: after->0.lots, ..held })
        }),
{
    let held = positions[fill.symbol@];
    lemma_order(held.lots, fill.lots);
    lemma_minus(held.lots, fill.lots);
}

/// A fill on the same side adds its lots, at the average price: what was paid for all lots is
/// the price times all lots. The position keeps its side, its symbol and its opening time.
pub proof fn law_adding_averages_the_price(
    positions: Map<Seq<char>, Position>,
    fill: Fill,
    point: Double,
    tick_value: Double,
    digits: u32,
    now: u64,
)
    requires
        positions.contains_key(fill.symbol@),
        positions[fill.symbol@].side == fill.side,
        ordinary(fill.lots),
        ordinary(fill.price),
        ordinary(positions[fill.symbol@].lots),
        ordinary(positions[fill.symbol@].entry_price),
    ensures
        ({
            let held = positions[fill.symbol@];
            let after = position_of(
                after_fill(positions, fill, point, tick_value, digits, now),
                fill.symbol@,
            );
            let lots = held.lots.worth() + fill.lots.worth();
            let paid = held.entry_price.worth() * held.lots.worth() + fill.price.worth()
                * fill.lots.worth();
            &&& after is Some
            &&& near(after->0.lots.worth(), lots, 1)
            &&& near(after->0.entry_price.worth(), paid / lots, 4)
            &&& after->0.side == held.side
            &&& after->0.symbol == held.symbol
            &&& after->0.opened_at_ms == held.opened_at_ms
            &&& after->0.current_price == held.current_price
            &&& after->0.unrealized_pnl == held.unrealized_pnl
            &&& after->0.point == point
            &&& after->0.tick_value == tick_value
            &&& after->0.digits == digits
        }),
{
    let held = positions[fill.symbol@];
    let (hl, fl) = (held.lots.worth(), fill.lots.worth());
    let (hp, fp) = (held.entry_price.worth(), fill.price.worth());
    let total = held.lots.sum(fill.lots);
    let a = held.entry_price.product(held.lots);
    let b = fill.price.product(fill.lots);
    lemma_itself(hl, 0);
    lemma_itself(fl, 0);
    lemma_itself(hp, 0);
    lemma_itself(fp, 0);
    lemma_sized_product(hp, hl, 100, 100);
    lemma_sized_widens(hp * hl, 200, 900);
    lemma_times(held.entry_price, held.lots, hp, hl, 0, 0);
    lemma_sized_product(fp, fl, 100, 100);
    lemma_sized_widens(fp * fl, 200, 900);
    lemma_times(fill.price, fill.lots, fp, fl, 0, 0);
    assert(hp * hl > 0 as real && fp * fl > 0 as real) by (nonlinear_arith)
        requires
            hp > 0 as real,
            hl > 0 as real,
            fp > 0 as real,
            fl > 0 as real,
    ;
    lemma_sized_sum(hp * hl, fp * fl, 200);
    lemma_sized_sum(hl, fl, 100);
    lemma_pow2_strictly_increases(201, 900);
    lemma_pow2_strictly_increases(101, 1000);
    lemma_near_sum(a, b, hp * hl, fp * fl, 1);
    lemma_plus(held.lots, fill.lots);
    let paid = hp * hl + fp * fl;
    let lots = hl + fl;
    lemma_sized_quotient(paid, lots, 201, 101);
    lemma_sized_widens(paid / lots, 302, 900);
    lemma_over(a.sum(b), total, paid, lots, 2, 1);
}

/// The first fill of a symbol opens a position as it says: its side, lots and price, at that
/// time, with nothing gained yet.
pub proof fn law_first_fill_opens(
    positions: Map<Seq<char>, Position>,
    fill: Fill,
    point: Double,
    tick_value: Double,
    digits: u32,
    now: u64,
)
    requires
        !positions.contains_key(fill.symbol@),
    ensures
        ({
            let after = position_of(
                after_fill(positions, fill, point, tick_value, digits, now),
                fill.symbol@,
            );
            &&& after is Some
            &&& is_fresh(after->0, fill, point, tick_value, digits, now)
            &&& after->0.lots == fill.lots
        }),
{
    lemma_integer_worth(0);
}

/// A position that a fill has opened.
pub open spec fn is_fresh(
    position: Position,
    fill: Fill,
    point: Double,
    tick_value: Double,
    digits: u32,
    now: u64,
) -> bool {
    &&& position.symbol == fill.symbol
    &&& position.side == fill.side
    &&& position.entry_price == fill.price
    &&& position.current_price == fill.price
    &&& position.unrealized_pnl.finite()
    &&& position.unrealized_pnl.worth() == 0 as real
    &&& position.opened_at_ms == now
    &&& position.point == point
    &&& position.tick_value == tick_value
    &&& position.digits == digits
}

/// A fill on the other side for more lots than the position holds turns it around: what is
/// left of the fill is a new position on its side, at its price.
pub proof fn law_larger_fill_turns_around(
    positions: Map<Seq<char>, Position>,
    fill: Fill,
    point: Double,
    tick_value: Double,
    digits: u32,
    now: u64,
)
    requires
        positions.contains_key(fill.symbol@),
        positions[fill.symbol@].side != fill.side,
        fill.lots.finite(),
        positions[fill.symbol@].lots.finite(),
        0 as real <= positions[fill.symbol@].lots.worth() < fill.lots.worth(),
        fill.lots.worth() <= pow2(1000) as real,
    ensures
        ({
            let held = positions[fill.symbol@];
            let after = position_of(
                after_fill(positions, fill, point, tick_value, digits, now),
                fill.symbol@,
            );
            &&& after is Some
            &&& is_fresh(after->0, fill, point, tick_value, digits, now)
            &&& near(after->0.lots.worth(), fill.lots.worth() - held.lots.worth(), 1)
        }),
{
    let held = positions[fill.symbol@];
    let zero = Double::of_integer(0);
    let rest = fill.lots.difference(held.lots);
    lemma_integer_worth(0);
    lemma_order(held.lots, fill.lots);
    lemma_minus(fill.lots, held.lots);
    lemma_order(zero, rest);
    lemma_near_keeps_side(rest.worth(), fill.lots.worth() - held.lots.worth(), 1);
}

/// A position is valued at the price it would close at, a long at the bid and a short at the
/// ask: its profit is the move in its favour in points, at the value of a point, for all lots.
/// Nothing else of it changes.
pub proof fn law_value_is_the_move(position: Position, bid: Double, ask: Double)
    ensures
        ({
            let after = position.valued(bid, ask);
            let price = match position.side {
                OrderSide::Buy => bid,
                OrderSide::Sell => ask,
            };
            let move_up = match position.side {
                OrderSide::Buy => bid.worth() - position.entry_price.worth(),
                OrderSide::Sell => position.entry_price.worth() - ask.worth(),
            };
            &&& after.current_price == price
            &&& after == (Position {
                current_price: after.current_price,
                unrealized_pnl: after.unrealized_pnl,
                ..position
            })
            &&& price.finite() && position.entry_price.finite() && sized(move_up, 200) && ordinary(
                position.point,
            ) && ordinary(position.tick_value) && ordinary(position.lots) ==> near(
                after.unrealized_pnl.worth(),
                move_up / position.point.worth() * position.tick_value.worth()
                    * position.lots.worth(),
                4,
            )
        }),
{
    let price = match position.side {
        OrderSide::Buy => bid,
        OrderSide::Sell => ask,
    };
    let (a, b) = match position.side {
        OrderSide::Buy => (bid, position.entry_price),
        OrderSide::Sell => (position.entry_price, ask),
    };
    let x = a.worth() - b.worth();
    if price.finite() && position.entry_price.finite() && sized(x, 200) && ordinary(position.point)
        && ordinary(position.tick_value) && ordinary(position.lots) {
        let (p, v, l) = (
            position.point.worth(),
            position.tick_value.worth(),
            position.lots.worth(),
        );
        lemma_integer_worth(0);
        lemma_order(Double::of_integer(0), position.point);
        lemma_itself(p, 0);
        lemma_itself(v, 0);
        lemma_itself(l, 0);
        lemma_sized_widens(x, 200, 1000);
        lemma_minus(a, b);
        let gain = a.difference(b);
        lemma_sized_quotient(x, p, 200, 100);
        lemma_sized_widens(x / p, 300, 900);
        lemma_over(gain, position.point, x, p, 1, 0);
        lemma_sized_product(x / p, v, 300, 100);
        lemma_sized_widens(x / p * v, 400, 900);
        lemma_times(gain.quotient(position.point), position.tick_value, x / p, v, 2, 0);
        lemma_sized_product(x / p * v, l, 400, 100);
        lemma_sized_widens(x / p * v * l, 500, 900);
        lemma_times(
            gain.quotient(position.point).product(position.tick_value),
            position.lots,
            x / p * v,
            l,
            3,
            0,
        );
    }
}

/// Without a point size the profit of a position is ten for each pip that its closing price
/// has gone its way, times its lots.
pub proof fn law_value_without_points_is_ten_a_pip(position: Position, bid: Double, ask: Double)
    requires
        position.entry_price.finite(),
        bid.finite(),
        ask.finite(),
        position.point.undefined() || (position.point.finite() && position.point.worth()
            <= 0 as real),
        ordinary(position.lots),
    ensures
        ({
            let move_up = match position.side {
                OrderSide::Buy => bid.worth() - position.entry_price.worth(),
                OrderSide::Sell => position.entry_price.worth() - ask.worth(),
            };
            sized(move_up, 200) ==> near(
                position.valued(bid, ask).unrealized_pnl.worth(),
                move_up * pip_count(position.digits) as real * position.lots.worth() * 10 as real,
                4,
            )
        }),
{
    let (a, b) = match position.side {
        OrderSide::Buy => (bid, position.entry_price),
        OrderSide::Sell => (position.entry_price, ask),
    };
    let x = a.worth() - b.worth();
    if sized(x, 200) {
        let l = position.lots.worth();
        let n = pip_count(position.digits) as real;
        let rate = tick_ingestion::pips_per_unit(position.digits);
        let gain = a.difference(b);
        lemma_integer_worth(0);
        lemma_integer_worth(10);
        if position.point.finite() {
            lemma_order(Double::of_integer(0), position.point);
        }
        law_pips_are_counted(position.digits);
        lemma_itself(n, 0);
        lemma_itself(l, 0);
        lemma_itself(10 as real, 0);
        lemma_sized_integer(pip_count(position.digits) as u64);
        lemma_sized_integer(10);
        lemma_sized_widens(x, 200, 1000);
        lemma_minus(a, b);
        lemma_sized_product(x, n, 200, 53);
        lemma_sized_widens(x * n, 253, 900);
        lemma_times(gain, rate, x, n, 1, 0);
        lemma_sized_product(x * n, l, 253, 100);
        lemma_sized_widens(x * n * l, 353, 900);
        lemma_times(gain.product(rate), position.lots, x * n, l, 2, 0);
        lemma_sized_product(x * n * l, 10 as real, 353, 53);
        lemma_sized_widens(x * n * l * 10 as real, 406, 900);
        lemma_times(
            gain.product(rate).product(position.lots),
            Double::of_integer(10),
            x * n * l,
            10 as real,
            3,
            0,
        );
    }
}

/// Nothing held is nothing floating, and each position adds its own profit to the total, up
/// to the rounding of the sum.
pub proof fn law_each_position_adds_to_the_total(
    entries: Seq<(String, Position)>,
    entry: (String, Position),
)
    ensures
        floating_total(Seq::empty()).worth() == 0 as real,
        ({
            let before = floating_total(entries);
            let profit = entry.1.unrealized_pnl;
            before.finite() && profit.finite() && size(before.worth() + profit.worth()) <= pow2(1000) as real
                ==> near(
                floating_total(entries.push(entry)).worth(),
                before.worth() + profit.worth(),
                1,
            )
        }),
{
    lemma_integer_worth(0);
    assert(entries.push(entry).drop_last() =~= entries);
    let before = floating_total(entries);
    let profit = entry.1.unrealized_pnl;
    if before.finite() && profit.finite() && size(before.worth() + profit.worth()) <= pow2(1000) as real {
        lemma_plus(before, profit);
    }
}

/// A new order is the market order that was asked for, not yet sent, with the executor's own
/// tolerance and the next id: ids go up by one, and start over at zero after the largest.
pub proof fn law_new_order_is_as_asked(
    before: OrderExecutor,
    symbol: Seq<char>,
    side: OrderSide,
    lots: Double,
    now: u64,
    order: Order,
    after: OrderExecutor,
)
    requires
        before.makes(0, symbol, side, lots, now, order),
        before.has_made(1, after),
    ensures
        order.id == before.next_id(),
        before.next_id() < u64::MAX ==> after.next_id() == before.next_id() + 1,
        before.next_id() == u64::MAX ==> after.next_id() == 0,
        order.symbol@ == symbol,
        order.side == side,
        order.lots == lots,
        order.order_type == OrderType::Market,
        order.price is None,
        order.slippage_tolerance == before.tolerance(),
        order.status == OrderStatus::Pending,
        order.created_at_ms == now,
        order.updated_at_ms == now,
        after.pending() == before.pending(),
        after.positions() == before.positions(),
{
}

/// A position is closed by a market order for its own symbol and all its lots on the other
/// side, and there is one such order for each position.
pub proof fn law_closing_orders_match_their_positions(
    before: OrderExecutor,
    orders: Seq<Order>,
    now: u64,
    i: int,
)
    requires
        before.closes_with(orders, now),
        0 <= i < orders.len(),
    ensures
        orders.len() == before.book().entries().len(),
        orders[i].symbol@ == before.book().entries()[i].1.symbol@,
        orders[i].lots == before.book().entries()[i].1.lots,
        orders[i].side != before.book().entries()[i].1.side,
        orders[i].order_type == OrderType::Market,
        orders[i].status == OrderStatus::Pending,
        orders[i].created_at_ms == now,
{
    let position = before.book().entries()[i].1;
    assert(before.makes(
        i as nat,
        position.symbol@,
        position.side.other(),
        position.lots,
        now,
        orders[i],
    ));
}

/// An order is submitted exactly where submission is open and it is not for nothing or less:
/// it then waits under its own id, as it was made, and what else waits stays. A refused order
/// changes nothing.
pub proof fn law_sound_orders_are_submitted(
    before: OrderExecutor,
    order: Order,
    now: u64,
    after: OrderExecutor,
    r: Result<u64, String>,
)
    requires
        before.submits_to(order, now, after, r),
        order.lots.finite(),
    ensures
        r is Ok <==> !before.halted() && order.lots.worth() > 0 as real,
        r is Ok ==> {
            &&& r->Ok_0 == order.id
            &&& after.pending().contains_key(order.id)
            &&& after.pending()[order.id].status == OrderStatus::Submitted
            &&& after.pending()[order.id].updated_at_ms == now
            &&& after.pending()[order.id].symbol == order.symbol
            &&& after.pending()[order.id].side == order.side
            &&& after.pending()[order.id].order_type == order.order_type
            &&& after.pending()[order.id].lots == order.lots
            &&& after.pending()[order.id].price == order.price
            &&& after.pending()[order.id].slippage_tolerance == order.slippage_tolerance
            &&& after.pending()[order.id].created_at_ms == order.created_at_ms
        },
        forall|id: u64|
            id != order.id || r is Err ==> {
                &&& #[trigger] after.pending().contains_key(id) == before.pending().contains_key(id)
                &&& before.pending().contains_key(id) ==> after.pending()[id]
                    == before.pending()[id]
            },
        after.positions() == before.positions(),
        after.filled() == before.filled(),
{
    lemma_integer_worth(0);
    lemma_order(order.lots, Double::of_integer(0));
}

/// A fill is of the order that it fills: its symbol, side and lots, at the given price and
/// time. The order no longer waits.
pub proof fn law_fill_is_of_its_order(
    before: OrderExecutor,
    order_id: u64,
    fill_price: Double,
    requested: Option<Double>,
    point: Double,
    tick_value: Double,
    digits: u32,
    now: u64,
    after: OrderExecutor,
    r: Result<Fill, String>,
)
    requires
        before.fills_to(
            order_id,
            fill_price,
            requested,
            point,
            tick_value,
            digits,
            now,
            after,
            r,
        ),
    ensures
        r is Ok <==> before.pending().contains_key(order_id),
        r is Err ==> after == before,
        r is Ok ==> {
            &&& r->Ok_0.order_id == order_id
            &&& r->Ok_0.symbol == before.pending()[order_id].symbol
            &&& r->Ok_0.side == before.pending()[order_id].side
            &&& r->Ok_0.lots == before.pending()[order_id].lots
            &&& r->Ok_0.price == fill_price
            &&& r->Ok_0.requested_price == requested
            &&& r->Ok_0.timestamp_ms == now
            &&& !after.pending().contains_key(order_id)
            &&& after.filled().len() == before.filled().len() + 1
            &&& after.filled().last() == r->Ok_0
            &&& after.filled().drop_last() == before.filled()
        },
        r is Ok && requested is Some && fill_price.finite() && requested->0.finite() && sized(
            fill_price.worth() - requested->0.worth(),
            200,
        ) ==> near(
            r->Ok_0.slippage_pips.worth(),
            size(fill_price.worth() - requested->0.worth()) * pip_count(digits) as real,
            2,
        ),
{
    law_slippage_is_the_distance(fill_price, requested, digits);
    if r is Ok {
        assert(after.filled().drop_last() =~= before.filled());
    }
}

/// A cancelled order stays in the list as what it was, and only its status and its time change.
pub proof fn law_cancelling_marks_the_order(
    before: OrderExecutor,
    order_id: u64,
    now: u64,
    after: OrderExecutor,
    r: Result<(), String>,
)
    requires
        before.cancels_to(order_id, now, after, r),
    ensures
        r is Ok <==> before.pending().contains_key(order_id),
        r is Err ==> after == before,
        r is Ok ==> {
            &&& after.pending().contains_key(order_id)
            &&& after.pending()[order_id].status == OrderStatus::Cancelled
            &&& after.pending()[order_id].updated_at_ms == now
            &&& after.pending()[order_id].lots == before.pending()[order_id].lots
            &&& after.pending()[order_id].side == before.pending()[order_id].side
            &&& after.pending()[order_id].symbol == before.pending()[order_id].symbol
            &&& after.positions() == before.positions()
        },
{
}

/// The slippage is the distance of the fill from the requested price, in pips, and none
/// without such a price.
pub proof fn law_slippage_is_the_distance(fill_price: Double, requested: Option<Double>, digits: u32)
    ensures
        requested is None ==> slippage(fill_price, requested, digits).worth() == 0 as real,
        requested is Some && fill_price.finite() && requested->0.finite() && sized(
            fill_price.worth() - requested->0.worth(),
            200,
        ) ==> near(
            slippage(fill_price, requested, digits).worth(),
            size(fill_price.worth() - requested->0.worth()) * pip_count(digits) as real,
            2,
        ),
{
    lemma_integer_worth(0);
    if requested is Some && fill_price.finite() && requested->0.finite() && sized(
        fill_price.worth() - requested->0.worth(),
        200,
    ) {
        let price = requested->0;
        let x = fill_price.worth() - price.worth();
        let n = pip_count(digits) as real;
        let step = fill_price.difference(price);
        law_pips_are_counted(digits);
        lemma_itself(n, 0);
        lemma_sized_integer(pip_count(digits) as u64);
        lemma_sized_widens(x, 200, 1000);
        lemma_minus(fill_price, price);
        lemma_absolute(step, x, 1);
        assert(sized(size(x), 200));
        lemma_sized_product(size(x), n, 200, 53);
        lemma_sized_widens(size(x) * n, 253, 900);
        lemma_times(step.absolute(), tick_ingestion::pips_per_unit(digits), size(x), n, 1, 0);
    }
}

} // verus!
