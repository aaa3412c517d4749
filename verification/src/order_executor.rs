//! Order executor: orders, their fills and the positions that the fills make.
use vstd::prelude::*;
use crate::clock;
use crate::double;
use crate::double::Double;
use crate::symbol_map;
use crate::symbol_map::SymbolMap;
use crate::text;
use crate::tick_ingestion;

pub mod laws;

verus! {

/// Order side.
#[derive(Debug, Clone, Copy, PartialEq, Eq, Structural)]
pub enum OrderSide {
    Buy,
    Sell,
}

/// Order type.
#[derive(Debug, Clone, Copy, PartialEq, Eq, Structural)]
pub enum OrderType {
    Market,
    Limit,
    Stop,
}

/// Order status.
#[derive(Debug, PartialEq)]
pub enum OrderStatus {
    Pending,
    Submitted,
    PartiallyFilled { filled_lots: Double },
    Filled { fill_price: Double, slippage: Double },
    Cancelled,
    Rejected { reason: String },
    Expired,
}

/// An order.
#[derive(Debug)]
pub struct Order {
    pub id: u64,
    pub symbol: String,
    pub side: OrderSide,
    pub order_type: OrderType,
    pub lots: Double,
    /// For limit and stop orders.
    pub price: Option<Double>,
    /// Maximum acceptable slippage in pips.
    pub slippage_tolerance: Double,
    pub status: OrderStatus,
    pub created_at_ms: u64,
    pub updated_at_ms: u64,
}

/// Fill information.
#[derive(Debug)]
pub struct Fill {
    pub order_id: u64,
    pub symbol: String,
    pub side: OrderSide,
    pub lots: Double,
    pub price: Double,
    pub requested_price: Option<Double>,
    pub slippage_pips: Double,
    pub timestamp_ms: u64,
}

/// Open position.
#[derive(Debug)]
pub struct Position {
    pub symbol: String,
    pub side: OrderSide,
    pub lots: Double,
    pub entry_price: Double,
    pub current_price: Double,
    pub unrealized_pnl: Double,
    pub opened_at_ms: u64,
    pub point: Double,
    pub tick_value: Double,
    pub digits: u32,
}

impl Clone for OrderStatus {
    fn clone(&self) -> (r: OrderStatus)
        ensures
            r == *self,
    {
        match self {
            OrderStatus::Pending => OrderStatus::Pending,
            OrderStatus::Submitted => OrderStatus::Submitted,
            OrderStatus::PartiallyFilled { filled_lots } => OrderStatus::PartiallyFilled {
                filled_lots: *filled_lots,
            },
            OrderStatus::Filled { fill_price, slippage } => OrderStatus::Filled {
                fill_price: *fill_price,
                slippage: *slippage,
            },
            OrderStatus::Cancelled => OrderStatus::Cancelled,
            OrderStatus::Rejected { reason } => OrderStatus::Rejected { reason: reason.clone() },
            OrderStatus::Expired => OrderStatus::Expired,
        }
    }
}

impl Clone for Order {
    fn clone(&self) -> (r: Order)
        ensures
            r == *self,
    {
        Order {
            id: self.id,
            symbol: self.symbol.clone(),
            side: self.side,
            order_type: self.order_type,
            lots: self.lots,
            price: self.price,
            slippage_tolerance: self.slippage_tolerance,
            status: self.status.clone(),
            created_at_ms: self.created_at_ms,
            updated_at_ms: self.updated_at_ms,
        }
    }
}

impl Clone for Fill {
    fn clone(&self) -> (r: Fill)
        ensures
            r == *self,
    {
        Fill {
            order_id: self.order_id,
            symbol: self.symbol.clone(),
            side: self.side,
            lots: self.lots,
            price: self.price,
            requested_price: self.requested_price,
            slippage_pips: self.slippage_pips,
            timestamp_ms: self.timestamp_ms,
        }
    }
}

impl Clone for Position {
    fn clone(&self) -> (r: Position)
        ensures
            r == *self,
    {
        Position {
            symbol: self.symbol.clone(),
            side: self.side,
            lots: self.lots,
            entry_price: self.entry_price,
            current_price: self.current_price,
            unrealized_pnl: self.unrealized_pnl,
            opened_at_ms: self.opened_at_ms,
            point: self.point,
            tick_value: self.tick_value,
            digits: self.digits,
        }
    }
}

impl OrderSide {
    /// The other side.
    pub open spec fn other(self) -> OrderSide {
        match self {
            OrderSide::Buy => OrderSide::Sell,
            OrderSide::Sell => OrderSide::Buy,
        }
    }

    /// The side's name in an order.
    pub open spec fn name_text(self) -> Seq<char> {
        match self {
            OrderSide::Buy => "buy"@,
            OrderSide::Sell => "sell"@,
        }
    }

    /// The side's name in an order.
    pub fn name(self) -> (r: &'static str)
        ensures
            r@ == self.name_text(),
    {
        match self {
            OrderSide::Buy => "buy",
            OrderSide::Sell => "sell",
        }
    }

    fn opposite(self) -> (r: OrderSide)
        ensures
            r == self.other(),
    {
        match self {
            OrderSide::Buy => OrderSide::Sell,
            OrderSide::Sell => OrderSide::Buy,
        }
    }
}

impl Position {
    /// The position valued at the market: a long closes at the bid, a short at the ask. The
    /// profit is the price move in points times tick value and lots; without a point size it
    /// is the move in pips times lots, ten a pip.
    pub open spec fn valued(self, bid: Double, ask: Double) -> Position {
        let price = match self.side {
            OrderSide::Buy => bid,
            OrderSide::Sell => ask,
        };
        let gain = match self.side {
            OrderSide::Buy => price.difference(self.entry_price),
            OrderSide::Sell => self.entry_price.difference(price),
        };
        Position {
            current_price: price,
            unrealized_pnl: if Double::of_integer(0).below(self.point) {
                gain.quotient(self.point).product(self.tick_value).product(self.lots)
            } else {
                gain.product(tick_ingestion::pips_per_unit(self.digits)).product(
                    self.lots,
                ).product(Double::of_integer(10))
            },
            ..self
        }
    }

    /// Update profit and loss based on current price.
    pub fn update_pnl(&mut self, bid: Double, ask: Double)
        ensures
            *final(self) == old(self).valued(bid, ask),
    {
        self.current_price = match self.side {
            OrderSide::Buy => bid,
            OrderSide::Sell => ask,
        };
        let price_diff: Double = match self.side {
            OrderSide::Buy => self.current_price.minus(self.entry_price),
            OrderSide::Sell => self.entry_price.minus(self.current_price),
        };
        if self.point.is_above(Double::from_u64(0)) {
            self.unrealized_pnl =
            price_diff.over(self.point).times(self.tick_value).times(self.lots);
        } else {
            let multiplier: Double = tick_ingestion::pip_multiplier_of(self.digits);
            self.unrealized_pnl =
            price_diff.times(multiplier).times(self.lots).times(Double::from_u64(10));
        }
    }
}

/// Order executor.
pub struct OrderExecutor {
    next_order_id: u64,
    pending_orders: Vec<Order>,
    fills: Vec<Fill>,
    positions: SymbolMap<Position>,
    max_slippage_pips: Double,
    halted: bool,
}

/// Order `i` is the one with this id.
pub open spec fn stands_at(orders: Seq<Order>, id: u64, i: int) -> bool {
    0 <= i < orders.len() && orders[i].id == id
}

/// No id stands twice.
pub open spec fn ids_differ(orders: Seq<Order>) -> bool {
    forall|i: int, j: int|
        #![trigger orders[i], orders[j]]
        0 <= i < j < orders.len() ==> orders[i].id != orders[j].id
}

/// Where the order with this id stands.
pub open spec fn place_of(orders: Seq<Order>, id: u64) -> int {
    choose|i: int| stands_at(orders, id, i)
}

/// The orders with one set: in place where its id is among them, and else at the end.
pub open spec fn queued(orders: Seq<Order>, order: Order) -> Seq<Order> {
    if by_id(orders).contains_key(order.id) {
        orders.update(place_of(orders, order.id), order)
    } else {
        orders.push(order)
    }
}

/// Orders by their ids.
pub open spec fn by_id(orders: Seq<Order>) -> Map<u64, Order> {
    Map::new(
        |id: u64| exists|i: int| stands_at(orders, id, i),
        |id: u64| orders[choose|i: int| stands_at(orders, id, i)],
    )
}

/// How far a fill missed the price asked for, in pips.
pub open spec fn slippage(fill_price: Double, requested: Option<Double>, digits: u32) -> Double {
    match requested {
        Some(price) => fill_price.difference(price).absolute().product(
            tick_ingestion::pips_per_unit(digits),
        ),
        None => Double::of_integer(0),
    }
}

/// A position newly opened by a fill, with this many lots.
pub open spec fn opened(
    fill: Fill,
    lots: Double,
    point: Double,
    tick_value: Double,
    digits: u32,
    now: u64,
) -> Position {
    Position {
        symbol: fill.symbol,
        side: fill.side,
        lots,
        entry_price: fill.price,
        current_price: fill.price,
        unrealized_pnl: Double::of_integer(0),
        opened_at_ms: now,
        point,
        tick_value,
        digits,
    }
}

/// What a fill makes of a symbol's position. On the same side it adds to the lots, at the
/// average price. On the other side it takes lots away: all of them and more open a position
/// the other way, all of them close it, and fewer leave the rest.
pub open spec fn netted(
    position: Option<Position>,
    fill: Fill,
    point: Double,
    tick_value: Double,
    digits: u32,
    now: u64,
) -> Option<Position> {
    match position {
        None => Some(opened(fill, fill.lots, point, tick_value, digits, now)),
        Some(held) => if held.side == fill.side {
            let total = held.lots.sum(fill.lots);
            Some(
                Position {
                    lots: total,
                    entry_price: held.entry_price.product(held.lots).sum(
                        fill.price.product(fill.lots),
                    ).quotient(total),
                    point,
                    tick_value,
                    digits,
                    ..held
                },
            )
        } else if held.lots.at_most(fill.lots) {
            let rest = fill.lots.difference(held.lots);
            if Double::of_integer(0).below(rest) {
                Some(opened(fill, rest, point, tick_value, digits, now))
            } else {
                None
            }
        } else {
            Some(Position { lots: held.lots.difference(fill.lots), ..held })
        },
    }
}

/// The position of one symbol.
pub open spec fn position_of(positions: Map<Seq<char>, Position>, symbol: Seq<char>) -> Option<
    Position,
> {
    if positions.contains_key(symbol) {
        Some(positions[symbol])
    } else {
        None
    }
}

/// All positions after a fill.
pub open spec fn after_fill(
    positions: Map<Seq<char>, Position>,
    fill: Fill,
    point: Double,
    tick_value: Double,
    digits: u32,
    now: u64,
) -> Map<Seq<char>, Position> {
    match netted(
        position_of(positions, fill.symbol@),
        fill,
        point,
        tick_value,
        digits,
        now,
    ) {
        Some(position) => positions.insert(fill.symbol@, position),
        None => positions.remove(fill.symbol@),
    }
}

/// The book of positions after a fill: a position changes in its place, and a new one goes
/// last.
pub open spec fn book_after_fill(
    entries: Seq<(String, Position)>,
    positions: Map<Seq<char>, Position>,
    fill: Fill,
    point: Double,
    tick_value: Double,
    digits: u32,
    now: u64,
) -> Seq<(String, Position)> {
    match netted(
        position_of(positions, fill.symbol@),
        fill,
        point,
        tick_value,
        digits,
        now,
    ) {
        Some(position) => symbol_map::placed(entries, fill.symbol, position),
        None => symbol_map::taken_out(entries, fill.symbol@),
    }
}

/// The floating profits of the positions, added up in their order.
pub open spec fn floating_total(entries: Seq<(String, Position)>) -> Double
    decreases entries.len(),
{
    if entries.len() == 0 {
        Double::of_integer(0)
    } else {
        floating_total(entries.drop_last()).sum(entries.last().1.unrealized_pnl)
    }
}

/// The text for an order that is not pending.
pub open spec fn not_found_text(order_id: u64) -> Seq<char> {
    "Order "@ + text::numeral(order_id as nat) + " not found"@
}

/// The id that comes `n` orders after `id`; ids start over after the largest.
pub open spec fn id_after(id: u64, n: nat) -> u64 {
    ((id + n) % 0x1_0000_0000_0000_0000) as u64
}

proof fn lemma_stands(orders: Seq<Order>, i: int)
    requires
        ids_differ(orders),
        0 <= i < orders.len(),
    ensures
        place_of(orders, orders[i].id) == i,
        by_id(orders).contains_key(orders[i].id),
        by_id(orders)[orders[i].id] == orders[i],
{
    let id = orders[i].id;
    assert(stands_at(orders, id, i));
    let k = choose|k: int| stands_at(orders, id, k);
    assert(stands_at(orders, id, k));
    if k < i {
        assert(orders[k].id != orders[i].id);
    } else if i < k {
        assert(orders[i].id != orders[k].id);
    }
}

proof fn lemma_absent(orders: Seq<Order>, id: u64)
    requires
        forall|i: int| 0 <= i < orders.len() ==> (#[trigger] orders[i]).id != id,
    ensures
        !by_id(orders).contains_key(id),
{
}

proof fn lemma_replace(orders: Seq<Order>, i: int, order: Order)
    requires
        ids_differ(orders),
        0 <= i < orders.len(),
        order.id == orders[i].id,
    ensures
        ids_differ(orders.update(i, order)),
        by_id(orders.update(i, order)) == by_id(orders).insert(order.id, order),
{
    let after = orders.update(i, order);
    assert forall|id: u64|
        #![trigger by_id(after).contains_key(id)]
        #![trigger by_id(orders).contains_key(id)]
        #![trigger by_id(after)[id]]
        by_id(after).contains_key(id) == by_id(orders).contains_key(id) && (by_id(
            after,
        ).contains_key(id) && id != order.id ==> by_id(after)[id] == by_id(orders)[id]) by {
        if by_id(after).contains_key(id) {
            let k = choose|k: int| stands_at(after, id, k);
            assert(stands_at(orders, id, k));
            lemma_stands(after, k);
            lemma_stands(orders, k);
        }
        if by_id(orders).contains_key(id) {
            let k = choose|k: int| stands_at(orders, id, k);
            assert(stands_at(after, id, k));
        }
    }
    lemma_stands(after, i);
    lemma_stands(orders, i);
    assert(by_id(after) =~= by_id(orders).insert(order.id, order));
}

proof fn lemma_append(orders: Seq<Order>, order: Order)
    requires
        ids_differ(orders),
        forall|i: int| 0 <= i < orders.len() ==> (#[trigger] orders[i]).id != order.id,
    ensures
        ids_differ(orders.push(order)),
        by_id(orders.push(order)) == by_id(orders).insert(order.id, order),
{
    let after = orders.push(order);
    let n = orders.len() as int;
    assert forall|id: u64|
        #![trigger by_id(after).contains_key(id)]
        #![trigger by_id(orders).contains_key(id)]
        #![trigger by_id(after)[id]]
        id != order.id implies by_id(after).contains_key(id) == by_id(orders).contains_key(id) && (
    by_id(orders).contains_key(id) ==> by_id(after)[id] == by_id(orders)[id]) by {
        if by_id(after).contains_key(id) {
            let k = choose|k: int| stands_at(after, id, k);
            assert(k < n);
            assert(stands_at(orders, id, k));
        }
        if by_id(orders).contains_key(id) {
            let k = choose|k: int| stands_at(orders, id, k);
            assert(stands_at(after, id, k));
            lemma_stands(after, k);
            lemma_stands(orders, k);
        }
    }
    lemma_stands(after, n);
    assert(by_id(after) =~= by_id(orders).insert(order.id, order));
}

proof fn lemma_take_out(orders: Seq<Order>, i: int)
    requires
        ids_differ(orders),
        0 <= i < orders.len(),
    ensures
        ids_differ(orders.remove(i)),
        by_id(orders.remove(i)) == by_id(orders).remove(orders[i].id),
{
    let after = orders.remove(i);
    assert forall|j: int, k: int|
        #![trigger after[j], after[k]]
        0 <= j < k < after.len() implies after[j].id != after[k].id by {
        let jo = if j < i {
            j
        } else {
            j + 1
        };
        let ko = if k < i {
            k
        } else {
            k + 1
        };
        assert(orders[jo].id != orders[ko].id);
    }
    assert forall|id: u64|
        #![trigger by_id(after).contains_key(id)]
        #![trigger by_id(orders).contains_key(id)]
        #![trigger by_id(after)[id]]
        by_id(after).contains_key(id) == (id != orders[i].id && by_id(orders).contains_key(id)) && (
    by_id(after).contains_key(id) ==> by_id(after)[id] == by_id(orders)[id]) by {
        if by_id(after).contains_key(id) {
            let k = choose|k: int| stands_at(after, id, k);
            let ko = if k < i {
                k
            } else {
                k + 1
            };
            assert(stands_at(orders, id, ko));
            lemma_stands(after, k);
            lemma_stands(orders, ko);
            if ko < i {
                assert(orders[ko].id != orders[i].id);
            } else {
                assert(orders[i].id != orders[ko].id);
            }
        }
        if id != orders[i].id && by_id(orders).contains_key(id) {
            let ko = choose|k: int| stands_at(orders, id, k);
            let k = if ko < i {
                ko
            } else {
                ko - 1
            };
            assert(stands_at(after, id, k));
        }
    }
    assert(by_id(after) =~= by_id(orders).remove(orders[i].id));
}

impl OrderExecutor {
    /// The orders waiting for a fill, in the order in which they were submitted.
    pub closed spec fn queue(&self) -> Seq<Order> {
        self.pending_orders@
    }

    /// The orders waiting for a fill, by id.
    pub open spec fn pending(&self) -> Map<u64, Order> {
        by_id(self.queue())
    }

    /// Every fill, oldest first.
    pub closed spec fn filled(&self) -> Seq<Fill> {
        self.fills@
    }

    /// The open positions, in the order in which they were opened.
    pub closed spec fn book(&self) -> SymbolMap<Position> {
        self.positions
    }

    /// The open positions, by symbol.
    pub open spec fn positions(&self) -> Map<Seq<char>, Position> {
        self.book()@
    }

    /// The id of the next order.
    pub closed spec fn next_id(&self) -> u64 {
        self.next_order_id
    }

    /// The slippage tolerance of new orders, in pips.
    pub closed spec fn tolerance(&self) -> Double {
        self.max_slippage_pips
    }

    /// Orders are no longer accepted.
    pub closed spec fn halted(&self) -> bool {
        self.halted
    }

    /// No two pending orders share an id, no symbol has two positions, and each position
    /// stands under its own symbol.
    pub open spec fn wf(&self) -> bool {
        &&& ids_differ(self.queue())
        &&& self.book().distinct()
        &&& forall|symbol: Seq<char>|
            self.positions().contains_key(symbol) ==> (
            #[trigger] self.positions()[symbol]).symbol@ == symbol
    }

    /// The executor `after` differs from this one in its pending orders alone.
    pub open spec fn same_but_pending(&self, after: OrderExecutor) -> bool {
        &&& after.filled() == self.filled()
        &&& after.book() == self.book()
        &&& after.next_id() == self.next_id()
        &&& after.tolerance() == self.tolerance()
        &&& after.halted() == self.halted()
    }

    /// `order` is the market order made here for the `n`th time from now.
    pub open spec fn makes(
        &self,
        n: nat,
        symbol: Seq<char>,
        side: OrderSide,
        lots: Double,
        now: u64,
        order: Order,
    ) -> bool {
        &&& order.id == id_after(self.next_id(), n)
        &&& order.symbol@ == symbol
        &&& order.side == side
        &&& order.order_type == OrderType::Market
        &&& order.lots == lots
        &&& order.price is None
        &&& order.slippage_tolerance == self.tolerance()
        &&& order.status == OrderStatus::Pending
        &&& order.created_at_ms == now
        &&& order.updated_at_ms == now
    }

    /// The executor `after` differs from this one in having made `n` orders.
    pub open spec fn has_made(&self, n: nat, after: OrderExecutor) -> bool {
        &&& after.next_id() == id_after(self.next_id(), n)
        &&& after.queue() == self.queue()
        &&& after.filled() == self.filled()
        &&& after.book() == self.book()
        &&& after.tolerance() == self.tolerance()
        &&& after.halted() == self.halted()
    }

    /// Submitting `order` at time `now` gives `after` and `r`.
    pub open spec fn submits_to(
        &self,
        order: Order,
        now: u64,
        after: OrderExecutor,
        r: Result<u64, String>,
    ) -> bool {
        if self.halted() {
            &&& r is Err
            &&& r->Err_0@ == "Order submission is disabled"@
            &&& after == *self
        } else if order.lots.at_most(Double::of_integer(0)) {
            &&& r is Err
            &&& r->Err_0@ == "Invalid lot size"@
            &&& after == *self
        } else {
            let submitted = Order { status: OrderStatus::Submitted, updated_at_ms: now, ..order };
            &&& r == Ok::<u64, String>(order.id)
            &&& after.pending() == self.pending().insert(order.id, submitted)
            &&& after.queue() == queued(self.queue(), submitted)
            &&& self.same_but_pending(after)
        }
    }

    /// Setting the status of an order at time `now` gives `after`.
    pub open spec fn marks_to(
        &self,
        order_id: u64,
        status: OrderStatus,
        now: u64,
        after: OrderExecutor,
    ) -> bool {
        if self.pending().contains_key(order_id) {
            let marked = Order { status, updated_at_ms: now, ..self.pending()[order_id] };
            &&& after.pending() == self.pending().insert(order_id, marked)
            &&& after.queue() == queued(self.queue(), marked)
            &&& self.same_but_pending(after)
        } else {
            after == *self
        }
    }

    /// Filling an order at time `now` gives `after` and `r`.
    pub open spec fn fills_to(
        &self,
        order_id: u64,
        fill_price: Double,
        requested_price: Option<Double>,
        point: Double,
        tick_value: Double,
        digits: u32,
        now: u64,
        after: OrderExecutor,
        r: Result<Fill, String>,
    ) -> bool {
        if self.pending().contains_key(order_id) {
            let order = self.pending()[order_id];
            let fill = Fill {
                order_id,
                symbol: order.symbol,
                side: order.side,
                lots: order.lots,
                price: fill_price,
                requested_price,
                slippage_pips: slippage(fill_price, requested_price, digits),
                timestamp_ms: now,
            };
            &&& r == Ok::<Fill, String>(fill)
            &&& after.pending() == self.pending().remove(order_id)
            &&& after.queue() == self.queue().remove(place_of(self.queue(), order_id))
            &&& after.filled() == self.filled().push(fill)
            &&& after.positions() == after_fill(
                self.positions(),
                fill,
                point,
                tick_value,
                digits,
                now,
            )
            &&& after.book().entries() == book_after_fill(
                self.book().entries(),
                self.positions(),
                fill,
                point,
                tick_value,
                digits,
                now,
            )
            &&& after.next_id() == self.next_id()
            &&& after.tolerance() == self.tolerance()
            &&& after.halted() == self.halted()
        } else {
            &&& r is Err
            &&& r->Err_0@ == not_found_text(order_id)
            &&& after == *self
        }
    }

    /// Cancelling an order at time `now` gives `after` and `r`.
    pub open spec fn cancels_to(
        &self,
        order_id: u64,
        now: u64,
        after: OrderExecutor,
        r: Result<(), String>,
    ) -> bool {
        &&& self.marks_to(order_id, OrderStatus::Cancelled, now, after)
        &&& r is Ok <==> self.pending().contains_key(order_id)
        &&& r is Err ==> r->Err_0@ == not_found_text(order_id)
    }

    /// Cancelling every order at time `now` gives `after`.
    pub open spec fn cancels_all_to(&self, now: u64, after: OrderExecutor) -> bool {
        &&& after.queue().len() == self.queue().len()
        &&& forall|i: int|
            0 <= i < self.queue().len() ==> #[trigger] after.queue()[i] == (Order {
                status: OrderStatus::Cancelled,
                updated_at_ms: now,
                ..self.queue()[i]
            })
        &&& self.same_but_pending(after)
    }

    /// `orders` close the positions of this executor, one each, at time `now`.
    pub open spec fn closes_with(&self, orders: Seq<Order>, now: u64) -> bool {
        &&& orders.len() == self.book().entries().len()
        &&& forall|i: int|
            0 <= i < orders.len() ==> {
                let position = self.book().entries()[i].1;
                self.makes(
                    i as nat,
                    position.symbol@,
                    position.side.other(),
                    position.lots,
                    now,
                    #[trigger] orders[i],
                )
            }
    }
}

impl OrderExecutor {
    pub fn new(max_slippage_pips: Double) -> (r: OrderExecutor)
        ensures
            r.next_id() == 1,
            r.queue() == Seq::<Order>::empty(),
            r.filled() == Seq::<Fill>::empty(),
            r.positions() == Map::<Seq<char>, Position>::empty(),
            r.book().entries() == Seq::<(String, Position)>::empty(),
            r.tolerance() == max_slippage_pips,
            !r.halted(),
            r.wf(),
    {
        OrderExecutor {
            next_order_id: 1,
            pending_orders: Vec::new(),
            fills: Vec::new(),
            positions: SymbolMap::new(),
            max_slippage_pips,
            halted: false,
        }
    }

    /// Create a new market order, by the wall clock.
    pub fn create_market_order(&mut self, symbol: &str, side: OrderSide, lots: Double) -> (r: Order)
        ensures
            exists|reading: std::time::SystemTime|
                old(self).makes(
                    0,
                    symbol@,
                    side,
                    lots,
                    clock::timestamp_of(#[trigger] clock::elapsed(reading)),
                    r,
                ),
            old(self).has_made(1, *final(self)),
    {
        let now: u64 = clock::now_ms();
        self.create_market_order_at(symbol, side, lots, now)
    }

    /// Create a new market order at time `now`.
    pub fn create_market_order_at(
        &mut self,
        symbol: &str,
        side: OrderSide,
        lots: Double,
        now: u64,
    ) -> (r: Order)
        ensures
            old(self).makes(0, symbol@, side, lots, now, r),
            old(self).has_made(1, *final(self)),
    {
        let id: u64 = self.next_order_id;
        self.next_order_id = id.wrapping_add(1);
        Order {
            id,
            symbol: symbol.to_owned(),
            side,
            order_type: OrderType::Market,
            lots,
            price: None,
            slippage_tolerance: self.max_slippage_pips,
            status: OrderStatus::Pending,
            created_at_ms: now,
            updated_at_ms: now,
        }
    }

    /// Index of a pending order, or the number of them.
    fn find(&self, order_id: u64) -> (r: usize)
        requires
            self.wf(),
        ensures
            r <= self.queue().len(),
            r < self.queue().len() ==> self.queue()[r as int].id == order_id && place_of(
                self.queue(),
                order_id,
            ) == r && self.pending().contains_key(order_id) && self.pending()[order_id]
                == self.queue()[r as int],
            r == self.queue().len() ==> !self.pending().contains_key(order_id) && forall|i: int|
                0 <= i < self.queue().len() ==> (#[trigger] self.queue()[i]).id != order_id,
    {
        let mut i: usize = 0;
        while i < self.pending_orders.len()
            invariant
                i <= self.pending_orders@.len(),
                self.wf(),
                forall|j: int| 0 <= j < i ==> (#[trigger] self.pending_orders@[j]).id != order_id,
            decreases self.pending_orders.len() - i,
        {
            if self.pending_orders[i].id == order_id {
                proof {
                    lemma_stands(self.queue(), i as int);
                }
                return i;
            }
            i = i + 1;
        }
        proof {
            lemma_absent(self.queue(), order_id);
        }
        i
    }

    /// Submit an order to the queue, by the wall clock.
    pub fn submit_order(&mut self, order: Order) -> (r: Result<u64, String>)
        requires
            old(self).wf(),
        ensures
            exists|reading: std::time::SystemTime|
                old(self).submits_to(
                    order,
                    clock::timestamp_of(#[trigger] clock::elapsed(reading)),
                    *final(self),
                    r,
                ),
            final(self).wf(),
    {
        let now: u64 = clock::now_ms();
        self.submit_order_at(order, now)
    }

    /// Submit an order to the queue at time `now`.
    pub fn submit_order_at(&mut self, order: Order, now: u64) -> (r: Result<u64, String>)
        requires
            old(self).wf(),
        ensures
            old(self).submits_to(order, now, *final(self), r),
            final(self).wf(),
    {
        if self.halted {
            return Err("Order submission is disabled".to_owned());
        }
        if order.lots.is_at_most(Double::from_u64(0)) {
            return Err("Invalid lot size".to_owned());
        }
        let id: u64 = order.id;
        let mut submitted: Order = order;
        submitted.status = OrderStatus::Submitted;
        submitted.updated_at_ms = now;
        let ghost before = self.queue();
        let i: usize = self.find(id);
        if i < self.pending_orders.len() {
            proof {
                lemma_replace(before, i as int, submitted);
            }
            self.pending_orders.set(i, submitted);
            assert(self.queue() == before.update(i as int, submitted));
        } else {
            proof {
                lemma_append(before, submitted);
            }
            self.pending_orders.push(submitted);
            assert(self.queue() == before.push(submitted));
        }
        Ok(id)
    }

    /// All orders that need to be sent to the bridge.
    pub fn pull_pending_submissions(&mut self) -> (r: Vec<Order>)
        ensures
            r@ == old(self).queue(),
            *final(self) == *old(self),
    {
        let mut r: Vec<Order> = Vec::new();
        let mut i: usize = 0;
        while i < self.pending_orders.len()
            invariant
                *self == *old(self),
                i <= self.pending_orders@.len(),
                r@ == self.pending_orders@.take(i as int),
            decreases self.pending_orders.len() - i,
        {
            r.push(self.pending_orders[i].clone());
            i = i + 1;
            assert(r@ =~= self.pending_orders@.take(i as int));
        }
        assert(r@ =~= self.pending_orders@);
        r
    }

    /// Updates order status based on the bridge's response, by the wall clock.
    pub fn update_from_bridge(&mut self, order_id: u64, status: OrderStatus)
        requires
            old(self).wf(),
        ensures
            exists|reading: std::time::SystemTime|
                old(self).marks_to(
                    order_id,
                    status,
                    clock::timestamp_of(#[trigger] clock::elapsed(reading)),
                    *final(self),
                ),
            final(self).wf(),
    {
        let now: u64 = clock::now_ms();
        self.update_from_bridge_at(order_id, status, now)
    }

    /// Updates order status based on the bridge's response at time `now`.
    pub fn update_from_bridge_at(&mut self, order_id: u64, status: OrderStatus, now: u64)
        requires
            old(self).wf(),
        ensures
            old(self).marks_to(order_id, status, now, *final(self)),
            final(self).wf(),
    {
        let i: usize = self.find(order_id);
        if i < self.pending_orders.len() {
            let ghost before = self.queue();
            let mut order: Order = self.pending_orders[i].clone();
            order.status = status;
            order.updated_at_ms = now;
            proof {
                lemma_replace(before, i as int, order);
            }
            self.pending_orders.set(i, order);
            assert(self.queue() == before.update(i as int, order));
        }
    }

    /// Process a fill from the broker, by the wall clock.
    pub fn process_fill(
        &mut self,
        order_id: u64,
        fill_price: Double,
        requested_price: Option<Double>,
        point: Double,
        tick_value: Double,
        digits: u32,
    ) -> (r: Result<Fill, String>)
        requires
            old(self).wf(),
        ensures
            exists|reading: std::time::SystemTime|
                old(self).fills_to(
                    order_id,
                    fill_price,
                    requested_price,
                    point,
                    tick_value,
                    digits,
                    clock::timestamp_of(#[trigger] clock::elapsed(reading)),
                    *final(self),
                    r,
                ),
            final(self).wf(),
    {
        let now: u64 = clock::now_ms();
        self.process_fill_at(
            order_id,
            fill_price,
            requested_price,
            point,
            tick_value,
            digits,
            now,
        )
    }

    /// Process a fill from the broker at time `now`. A fill beyond the order's slippage
    /// tolerance is taken all the same.
    pub fn process_fill_at(
        &mut self,
        order_id: u64,
        fill_price: Double,
        requested_price: Option<Double>,
        point: Double,
        tick_value: Double,
        digits: u32,
        now: u64,
    ) -> (r: Result<Fill, String>)
        requires
            old(self).wf(),
        ensures
            old(self).fills_to(
                order_id,
                fill_price,
                requested_price,
                point,
                tick_value,
                digits,
                now,
                *final(self),
                r,
            ),
            final(self).wf(),
    {
        let i: usize = self.find(order_id);
        if i >= self.pending_orders.len() {
            return Err(not_found(order_id));
        }
        let ghost before = self.queue();
        proof {
            lemma_take_out(before, i as int);
        }
        let order: Order = self.pending_orders.remove(i);
        assert(self.queue() == before.remove(i as int));
        let slippage_pips: Double = match requested_price {
            Some(price) => fill_price.minus(price).abs().times(
                tick_ingestion::pip_multiplier_of(digits),
            ),
            None => Double::from_u64(0),
        };
        let fill: Fill = Fill {
            order_id,
            symbol: order.symbol.clone(),
            side: order.side,
            lots: order.lots,
            price: fill_price,
            requested_price,
            slippage_pips,
            timestamp_ms: now,
        };
        self.update_position(&fill, point, tick_value, digits, now);
        self.fills.push(fill.clone());
        Ok(fill)
    }

    /// Update position based on fill.
    fn update_position(
        &mut self,
        fill: &Fill,
        point: Double,
        tick_value: Double,
        digits: u32,
        now: u64,
    )
        requires
            old(self).wf(),
        ensures
            final(self).positions() == after_fill(
                old(self).positions(),
                *fill,
                point,
                tick_value,
                digits,
                now,
            ),
            final(self).book().entries() == book_after_fill(
                old(self).book().entries(),
                old(self).positions(),
                *fill,
                point,
                tick_value,
                digits,
                now,
            ),
            final(self).queue() == old(self).queue(),
            final(self).filled() == old(self).filled(),
            final(self).next_id() == old(self).next_id(),
            final(self).tolerance() == old(self).tolerance(),
            final(self).halted() == old(self).halted(),
            has_lots(old(self).positions(), *fill) ==> nets(
                old(self).positions(),
                *fill,
                final(self).positions(),
            ),
            final(self).wf(),
    {
        proof {
            if has_lots(self.positions(), *fill) {
                law_fills_net(self.positions(), *fill, point, tick_value, digits, now);
            }
        }
        let existing: Option<Position> = match self.positions.get(fill.symbol.as_str()) {
            Some(position) => Some(position.clone()),
            None => None,
        };
        let next: Option<Position> = match existing {
            Some(mut held) => {
                if held.side == fill.side {
                    // Adding to position
                    let total_lots: Double = held.lots.plus(fill.lots);
                    let avg_price: Double = held.entry_price.times(held.lots).plus(
                        fill.price.times(fill.lots),
                    ).over(total_lots);
                    held.lots = total_lots;
                    held.entry_price = avg_price;
                    held.point = point;
                    held.tick_value = tick_value;
                    held.digits = digits;
                    Some(held)
                } else if fill.lots.is_at_least(held.lots) {
                    // Position closed or reversed
                    let remaining: Double = fill.lots.minus(held.lots);
                    if remaining.is_above(Double::from_u64(0)) {
                        Some(open_position(fill, remaining, point, tick_value, digits, now))
                    } else {
                        None
                    }
                } else {
                    // Partial close
                    held.lots = held.lots.minus(fill.lots);
                    Some(held)
                }
            },
            None => Some(open_position(fill, fill.lots, point, tick_value, digits, now)),
        };
        match next {
            Some(position) => {
                self.positions.insert(fill.symbol.clone(), position);
            },
            None => {
                self.positions.remove(fill.symbol.as_str());
            },
        }
    }

    /// Cancel an order, by the wall clock.
    pub fn cancel_order(&mut self, order_id: u64) -> (r: Result<(), String>)
        requires
            old(self).wf(),
        ensures
            exists|reading: std::time::SystemTime|
                old(self).cancels_to(
                    order_id,
                    clock::timestamp_of(#[trigger] clock::elapsed(reading)),
                    *final(self),
                    r,
                ),
            final(self).wf(),
    {
        let now: u64 = clock::now_ms();
        self.cancel_order_at(order_id, now)
    }

    /// Cancel an order at time `now`.
    pub fn cancel_order_at(&mut self, order_id: u64, now: u64) -> (r: Result<(), String>)
        requires
            old(self).wf(),
        ensures
            old(self).cancels_to(order_id, now, *final(self), r),
            final(self).wf(),
    {
        let i: usize = self.find(order_id);
        if i < self.pending_orders.len() {
            self.update_from_bridge_at(order_id, OrderStatus::Cancelled, now);
            Ok(())
        } else {
            Err(not_found(order_id))
        }
    }

    /// Cancel all pending orders, by the wall clock.
    pub fn cancel_all(&mut self)
        ensures
            exists|reading: std::time::SystemTime|
                old(self).cancels_all_to(
                    clock::timestamp_of(#[trigger] clock::elapsed(reading)),
                    *final(self),
                ),
            old(self).wf() ==> final(self).wf(),
    {
        let now: u64 = clock::now_ms();
        self.cancel_all_at(now)
    }

    /// Cancel all pending orders at time `now`.
    pub fn cancel_all_at(&mut self, now: u64)
        ensures
            old(self).cancels_all_to(now, *final(self)),
            old(self).wf() ==> final(self).wf(),
    {
        let mut i: usize = 0;
        while i < self.pending_orders.len()
            invariant
                i <= self.pending_orders@.len(),
                old(self).same_but_pending(*self),
                self.pending_orders@.len() == old(self).queue().len(),
                forall|j: int|
                    0 <= j < i ==> #[trigger] self.pending_orders@[j] == (Order {
                        status: OrderStatus::Cancelled,
                        updated_at_ms: now,
                        ..old(self).queue()[j]
                    }),
                forall|j: int|
                    i <= j < self.pending_orders@.len() ==> #[trigger] self.pending_orders@[j]
                        == old(self).queue()[j],
            decreases self.pending_orders.len() - i,
        {
            let mut order: Order = self.pending_orders[i].clone();
            order.status = OrderStatus::Cancelled;
            order.updated_at_ms = now;
            self.pending_orders.set(i, order);
            i = i + 1;
        }
        proof {
            if old(self).wf() {
                assert forall|j: int, k: int|
                    #![trigger self.queue()[j], self.queue()[k]]
                    0 <= j < k < self.queue().len() implies self.queue()[j].id
                    != self.queue()[k].id by {
                    assert(old(self).queue()[j].id != old(self).queue()[k].id);
                }
            }
        }
    }

    /// Close all positions at market, by the wall clock.
    pub fn close_all_positions(&mut self) -> (r: Vec<Order>)
        ensures
            exists|reading: std::time::SystemTime|
                old(self).closes_with(
                    r@,
                    clock::timestamp_of(#[trigger] clock::elapsed(reading)),
                ),
            old(self).has_made(r@.len(), *final(self)),
    {
        let now: u64 = clock::now_ms();
        self.close_all_positions_at(now)
    }

    /// Close all positions at market at time `now`: one order for each, on the other side
    /// and for all its lots.
    pub fn close_all_positions_at(&mut self, now: u64) -> (r: Vec<Order>)
        ensures
            old(self).closes_with(r@, now),
            old(self).has_made(r@.len(), *final(self)),
    {
        let mut close_orders: Vec<Order> = Vec::new();
        let mut i: usize = 0;
        while i < self.positions.len()
            invariant
                i <= self.book().entries().len(),
                close_orders@.len() == i,
                old(self).has_made(i as nat, *self),
                forall|j: int|
                    0 <= j < i ==> {
                        let position = old(self).book().entries()[j].1;
                        old(self).makes(
                            j as nat,
                            position.symbol@,
                            position.side.other(),
                            position.lots,
                            now,
                            #[trigger] close_orders@[j],
                        )
                    },
            decreases self.book().entries().len() - i,
        {
            let position: Position = self.positions.value_at(i).clone();
            let order: Order = self.create_market_order_at(
                position.symbol.as_str(),
                position.side.opposite(),
                position.lots,
                now,
            );
            close_orders.push(order);
            i = i + 1;
        }
        close_orders
    }

    /// Shutting down at time `now` gives `after` and the orders that close the positions: every
    /// pending order is cancelled, and no order is accepted any more.
    pub open spec fn shuts_down_to(
        &self,
        now: u64,
        after: OrderExecutor,
        closing: Seq<Order>,
    ) -> bool {
        &&& after.queue().len() == self.queue().len()
        &&& forall|i: int|
            0 <= i < self.queue().len() ==> #[trigger] after.queue()[i] == (Order {
                status: OrderStatus::Cancelled,
                updated_at_ms: now,
                ..self.queue()[i]
            })
        &&& self.closes_with(closing, now)
        &&& after.halted()
        &&& after.next_id() == id_after(self.next_id(), closing.len())
        &&& after.filled() == self.filled()
        &&& after.book() == self.book()
        &&& after.tolerance() == self.tolerance()
    }

    /// Cancel all pending orders, refuse new ones from now on, and make the orders that close
    /// every position at market, at time `now`.
    pub fn shut_down_at(&mut self, now: u64) -> (closing: Vec<Order>)
        ensures
            old(self).shuts_down_to(now, *final(self), closing@),
            old(self).wf() ==> final(self).wf(),
    {
        self.cancel_all_at(now);
        let closing: Vec<Order> = self.close_all_positions_at(now);
        self.halted = true;
        closing
    }

    /// Check if orders are no longer accepted.
    pub fn is_halted(&self) -> (r: bool)
        ensures
            r == self.halted(),
    {
        self.halted
    }

    /// Get current position for a symbol.
    pub fn get_position(&self, symbol: &str) -> (r: Option<&Position>)
        ensures
            r is Some <==> self.positions().contains_key(symbol@),
            r is Some ==> *r->0 == self.positions()[symbol@],
    {
        self.positions.get(symbol)
    }

    /// Get all positions.
    pub fn get_all_positions(&self) -> (r: &SymbolMap<Position>)
        ensures
            *r == self.book(),
    {
        &self.positions
    }

    /// Check if there are any open positions.
    pub fn has_open_positions(&self) -> (r: bool)
        requires
            self.wf(),
        ensures
            r == exists|symbol: Seq<char>| self.positions().contains_key(symbol),
    {
        proof {
            if self.book().entries().len() > 0 {
                symbol_map::lemma_entry_is_value(self.book(), 0);
                assert(self.positions().contains_key(self.book().entries()[0].0@));
            } else {
                assert forall|symbol: Seq<char>| !self.positions().contains_key(symbol) by {
                    assert(!symbol_map::has_key(self.book().entries(), symbol));
                }
            }
        }
        self.positions.len() > 0
    }

    /// Get total unrealized profit and loss.
    pub fn total_unrealized_pnl(&self) -> (r: Double)
        ensures
            r == floating_total(self.book().entries()),
    {
        let mut total: Double = Double::from_u64(0);
        let mut i: usize = 0;
        assert(self.book().entries().take(0) =~= Seq::<(String, Position)>::empty());
        while i < self.positions.len()
            invariant
                i <= self.book().entries().len(),
                total == floating_total(self.book().entries().take(i as int)),
            decreases self.book().entries().len() - i,
        {
            assert(self.book().entries().take(i + 1).drop_last() =~= self.book().entries().take(
                i as int,
            ));
            total = total.plus(self.positions.value_at(i).unrealized_pnl);
            i = i + 1;
        }
        assert(self.book().entries().take(i as int) =~= self.book().entries());
        total
    }
}

fn open_position(
    fill: &Fill,
    lots: Double,
    point: Double,
    tick_value: Double,
    digits: u32,
    now: u64,
) -> (r: Position)
    ensures
        r == opened(*fill, lots, point, tick_value, digits, now),
{
    Position {
        symbol: fill.symbol.clone(),
        side: fill.side,
        lots,
        entry_price: fill.price,
        current_price: fill.price,
        unrealized_pnl: Double::from_u64(0),
        opened_at_ms: now,
        point,
        tick_value,
        digits,
    }
}

fn not_found(order_id: u64) -> (r: String)
    ensures
        r@ == not_found_text(order_id),
{
    "Order ".to_owned().concat(text::decimal(order_id).as_str()).concat(" not found")
}

/// An order that was submitted can be filled: the fill carries the order's symbol, side and
/// lots, the order leaves the queue, and the fill goes on record.
pub proof fn law_submitted_order_is_filled(
    before: OrderExecutor,
    order: Order,
    submitted_at: u64,
    submitted: OrderExecutor,
    fill_price: Double,
    requested_price: Option<Double>,
    point: Double,
    tick_value: Double,
    digits: u32,
    filled_at: u64,
    after: OrderExecutor,
    r: Result<Fill, String>,
)
    requires
        before.submits_to(order, submitted_at, submitted, Ok(order.id)),
        submitted.fills_to(
            order.id,
            fill_price,
            requested_price,
            point,
            tick_value,
            digits,
            filled_at,
            after,
            r,
        ),
    ensures
        r is Ok,
        r->Ok_0.symbol == order.symbol,
        r->Ok_0.side == order.side,
        r->Ok_0.lots == order.lots,
        r->Ok_0.price == fill_price,
        !after.pending().contains_key(order.id),
        after.filled() == before.filled().push(r->Ok_0),
{
}

/// An order is filled once: a second fill of it is refused and changes nothing.
pub proof fn law_order_is_filled_once(
    before: OrderExecutor,
    order_id: u64,
    price: Double,
    requested: Option<Double>,
    point: Double,
    tick_value: Double,
    digits: u32,
    now: u64,
    filled: OrderExecutor,
    r: Result<Fill, String>,
    second_price: Double,
    second_requested: Option<Double>,
    second_point: Double,
    second_tick_value: Double,
    second_digits: u32,
    later: u64,
    after: OrderExecutor,
    second: Result<Fill, String>,
)
    requires
        before.fills_to(
            order_id,
            price,
            requested,
            point,
            tick_value,
            digits,
            now,
            filled,
            r,
        ),
        filled.fills_to(
            order_id,
            second_price,
            second_requested,
            second_point,
            second_tick_value,
            second_digits,
            later,
            after,
            second,
        ),
    ensures
        second is Err,
        second->Err_0@ == not_found_text(order_id),
        after == filled,
{
}

/// A fill touches the position of its own symbol alone.
pub proof fn law_fill_keeps_other_positions(
    positions: Map<Seq<char>, Position>,
    fill: Fill,
    point: Double,
    tick_value: Double,
    digits: u32,
    now: u64,
    symbol: Seq<char>,
)
    requires
        symbol != fill.symbol@,
    ensures
        position_of(after_fill(positions, fill, point, tick_value, digits, now), symbol)
            == position_of(positions, symbol),
{
}

/// A fill on the other side for all the lots of a position closes it.
pub proof fn law_opposite_fill_closes(
    positions: Map<Seq<char>, Position>,
    fill: Fill,
    point: Double,
    tick_value: Double,
    digits: u32,
    now: u64,
)
    requires
        positions.contains_key(fill.symbol@),
        positions[fill.symbol@].side == fill.side.other(),
        positions[fill.symbol@].lots == fill.lots,
        !fill.lots.undefined(),
    ensures
        after_fill(positions, fill, point, tick_value, digits, now) == positions.remove(
            fill.symbol@,
        ),
{
    double::lemma_integer_is_finite(0);
    double::lemma_difference_with_itself(fill.lots);
}

/// Orders get ids in turn, and an order's id is not that of the one made after it.
pub proof fn law_order_ids_advance(
    before: OrderExecutor,
    symbol: Seq<char>,
    side: OrderSide,
    lots: Double,
    now: u64,
    first: Order,
    middle: OrderExecutor,
    next_symbol: Seq<char>,
    next_side: OrderSide,
    next_lots: Double,
    later: u64,
    second: Order,
)
    requires
        before.makes(0, symbol, side, lots, now, first),
        before.has_made(1, middle),
        middle.makes(0, next_symbol, next_side, next_lots, later, second),
    ensures
        first.id == before.next_id(),
        second.id == id_after(first.id, 1),
        second.id != first.id,
{
}

/// Orders that were all cancelled are the same ones by id, and every one is cancelled.
pub proof fn lemma_all_cancelled(before: Seq<Order>, now: u64, after: Seq<Order>)
    requires
        ids_differ(before),
        after.len() == before.len(),
        forall|i: int|
            0 <= i < before.len() ==> #[trigger] after[i] == (Order {
                status: OrderStatus::Cancelled,
                updated_at_ms: now,
                ..before[i]
            }),
    ensures
        by_id(after).dom() == by_id(before).dom(),
        forall|id: u64|
            by_id(after).contains_key(id) ==> (#[trigger] by_id(after)[id]).status
                == OrderStatus::Cancelled,
{
    assert forall|i: int, j: int|
        #![trigger after[i], after[j]]
        0 <= i < j < after.len() implies after[i].id != after[j].id by {
        assert(before[i].id != before[j].id);
    }
    assert forall|id: u64|
        #![trigger by_id(after).contains_key(id)]
        #![trigger by_id(before).contains_key(id)]
        by_id(after).contains_key(id) == by_id(before).contains_key(id) && (by_id(
            after,
        ).contains_key(id) ==> by_id(after)[id].status == OrderStatus::Cancelled) by {
        if by_id(after).contains_key(id) {
            let k = choose|k: int| stands_at(after, id, k);
            assert(stands_at(before, id, k));
            lemma_stands(after, k);
        }
        if by_id(before).contains_key(id) {
            let k = choose|k: int| stands_at(before, id, k);
            assert(stands_at(after, id, k));
        }
    }
    assert(by_id(after).dom() =~= by_id(before).dom());
}

/// After all orders are cancelled, the same orders are pending and every one is cancelled.
pub proof fn law_cancel_all_leaves_none_live(before: OrderExecutor, now: u64, after: OrderExecutor)
    requires
        before.wf(),
        before.cancels_all_to(now, after),
    ensures
        after.pending().dom() == before.pending().dom(),
        forall|id: u64|
            after.pending().contains_key(id) ==> (#[trigger] after.pending()[id]).status
                == OrderStatus::Cancelled,
{
    lemma_all_cancelled(before.queue(), now, after.queue());
}

/// A position valued at its entry price shows neither profit nor loss.
pub proof fn law_no_move_no_profit(position: Position, bid: Double, ask: Double)
    requires
        position.entry_price == match position.side {
            OrderSide::Buy => bid,
            OrderSide::Sell => ask,
        },
        position.entry_price.finite(),
        Double::of_integer(0).below(position.point),
        position.tick_value.finite(),
        position.lots.finite(),
    ensures
        position.valued(bid, ask).unrealized_pnl.magnitude() == 0,
{
    let gain = position.entry_price.difference(position.entry_price);
    double::lemma_integer_is_finite(0);
    double::lemma_difference_with_itself(position.entry_price);
    double::lemma_sum_is_defined(position.entry_price, position.entry_price.negated());
    double::lemma_zero_over(gain, position.point);
    let points = gain.quotient(position.point);
    double::lemma_zero_times(points, position.tick_value);
    double::lemma_zero_times(points.product(position.tick_value), position.lots);
}

/// Lots with the sign of their side: bought lots count up, sold lots down.
pub open spec fn signed(side: OrderSide, lots: Double) -> Double {
    match side {
        OrderSide::Buy => lots,
        OrderSide::Sell => lots.negated(),
    }
}

/// The signed lots of a position; zero without one.
pub open spec fn signed_lots(position: Option<Position>) -> Double {
    match position {
        Some(position) => signed(position.side, position.lots),
        None => Double::of_integer(0),
    }
}

/// The lots of a fill and of its symbol's position are numbers above zero, and the position
/// stands under its symbol.
pub open spec fn has_lots(positions: Map<Seq<char>, Position>, fill: Fill) -> bool {
    &&& fill.lots.finite()
    &&& Double::of_integer(0).below(fill.lots)
    &&& positions.contains_key(fill.symbol@) ==> {
        &&& positions[fill.symbol@].lots.finite()
        &&& Double::of_integer(0).below(positions[fill.symbol@].lots)
        &&& positions[fill.symbol@].symbol@ == fill.symbol@
    }
}

/// The positions `all` net those before with a fill: the signed lots of its symbol are the
/// signed lots before plus those of the fill. The position is gone exactly where they add up
/// to zero, over the real numbers too, which is where it was on the other side with as many
/// lots. One that is left has lots above zero and stands under its symbol, and the other
/// symbols keep theirs.
pub open spec fn nets(
    positions: Map<Seq<char>, Position>,
    fill: Fill,
    all: Map<Seq<char>, Position>,
) -> bool {
    let before = position_of(positions, fill.symbol@);
    let after = position_of(all, fill.symbol@);
    let added = signed(fill.side, fill.lots);
    let net = signed_lots(before).sum(added);
    &&& signed_lots(after).same(net)
    &&& after is None <==> net.magnitude() == 0
    &&& after is None <==> signed_lots(before).value() + added.value() == 0
    &&& after is None <==> before is Some && before->0.side == fill.side.other()
        && before->0.lots.same(fill.lots)
    &&& after is Some ==> Double::of_integer(0).below(after->0.lots) && after->0.symbol@
        == fill.symbol@
    &&& forall|symbol: Seq<char>|
        symbol != fill.symbol@ ==> #[trigger] position_of(all, symbol) == position_of(
            positions,
            symbol,
        )
}

/// Fills net, in the arithmetic of the lots.
pub proof fn law_fills_net(
    positions: Map<Seq<char>, Position>,
    fill: Fill,
    point: Double,
    tick_value: Double,
    digits: u32,
    now: u64,
)
    requires
        has_lots(positions, fill),
    ensures
        nets(positions, fill, after_fill(positions, fill, point, tick_value, digits, now)),
{
    let before = position_of(positions, fill.symbol@);
    let f = fill.lots;
    double::lemma_integer_is_finite(0);
    double::lemma_same_by_value(Double::of_integer(0), f);
    assert(f.negated().magnitude() == f.magnitude() && f.negated().negative() == !f.negative());
    match before {
        None => {
            double::lemma_sum_with_zero(signed(fill.side, f));
            double::lemma_zero_has_no_value();
        },
        Some(held) => {
            let h = held.lots;
            assert(h.negated().magnitude() == h.magnitude() && h.negated().negative()
                == !h.negative());
            assert(f.negated().negated() == f);
            assert(h.negated().negated() == h);
            double::lemma_zero_has_no_value();
            double::law_order_is_exact(Double::of_integer(0), f);
            double::law_order_is_exact(Double::of_integer(0), h);
            double::lemma_same_by_value(h, f);
            double::lemma_sum_moves_outward(h, f);
            double::lemma_sum_of_negated(h, f);
            double::lemma_difference_has_the_sign_of_the_order(h, f);
            double::lemma_difference_has_the_sign_of_the_order(f, h);
            double::lemma_sum_of_negated(h, f.negated());
            double::lemma_sum_of_negated(f, h.negated());
            double::lemma_sum_commutes(h, f.negated());
            double::lemma_sum_commutes(f, h.negated());
        },
    }
}

/// Fills net over the real numbers, wherever the sum is a binary64 value: after a fill, the
/// signed lots of its symbol are exactly the signed lots before plus those of the fill.
pub proof fn law_fills_net_exactly(
    positions: Map<Seq<char>, Position>,
    fill: Fill,
    point: Double,
    tick_value: Double,
    digits: u32,
    now: u64,
    exact: Double,
)
    requires
        has_lots(positions, fill),
        exact.finite(),
        exact.value() == signed_lots(position_of(positions, fill.symbol@)).value() + signed(
            fill.side,
            fill.lots,
        ).value(),
    ensures
        ({
            let all = after_fill(positions, fill, point, tick_value, digits, now);
            let after = position_of(all, fill.symbol@);
            &&& signed_lots(after).value() == exact.value()
            &&& after is None <==> exact.value() == 0
        }),
{
    let before = signed_lots(position_of(positions, fill.symbol@));
    let added = signed(fill.side, fill.lots);
    let all = after_fill(positions, fill, point, tick_value, digits, now);
    let after = signed_lots(position_of(all, fill.symbol@));
    double::lemma_integer_is_finite(0);
    law_fills_net(positions, fill, point, tick_value, digits, now);
    double::lemma_sum_is_exact(before, added, exact);
    double::lemma_same_by_value(after, before.sum(added));
}

/// An order is submitted and then filled, at whatever times and prices.
pub open spec fn carries_out(before: OrderExecutor, order: Order, after: OrderExecutor) -> bool {
    exists|
        submitted_at: u64,
        submitted: OrderExecutor,
        id: Result<u64, String>,
        price: Double,
        requested: Option<Double>,
        point: Double,
        tick_value: Double,
        digits: u32,
        filled_at: u64,
        r: Result<Fill, String>,
    |
        {
            &&& #[trigger] before.submits_to(order, submitted_at, submitted, id)
            &&& #[trigger] submitted.fills_to(
                order.id,
                price,
                requested,
                point,
                tick_value,
                digits,
                filled_at,
                after,
                r,
            )
        }
}

/// The orders are submitted and filled one after the other.
pub open spec fn carries_out_all(
    before: OrderExecutor,
    orders: Seq<Order>,
    after: OrderExecutor,
) -> bool
    decreases orders.len(),
{
    if orders.len() == 0 {
        after == before
    } else {
        exists|middle: OrderExecutor|
            #![trigger carries_out(middle, orders.last(), after)]
            carries_out_all(before, orders.drop_last(), middle) && carries_out(
                middle,
                orders.last(),
                after,
            )
    }
}

/// The ids of one executor's orders differ until all numbers are used up.
pub proof fn law_order_ids_differ(first: u64, m: nat, n: nat)
    requires
        m < n < m + 0x1_0000_0000_0000_0000,
    ensures
        id_after(first, m) != id_after(first, n),
{
}

/// The positions that are left once the orders that close the first ones were carried out.
proof fn lemma_closing_orders_close(
    before: OrderExecutor,
    orders: Seq<Order>,
    now: u64,
    start: OrderExecutor,
    count: nat,
    after: OrderExecutor,
)
    requires
        before.wf(),
        !before.halted(),
        forall|i: int|
            0 <= i < before.book().entries().len() ==> Double::of_integer(0).below(
                (#[trigger] before.book().entries()[i]).1.lots,
            ),
        before.closes_with(orders, now),
        before.has_made(orders.len(), start),
        count <= orders.len(),
        carries_out_all(start, orders.take(count as int), after),
    ensures
        !after.halted(),
        forall|symbol: Seq<char>|
            #![trigger after.positions().contains_key(symbol)]
            #![trigger before.positions().contains_key(symbol)]
            after.positions().contains_key(symbol) <==> {
                &&& before.positions().contains_key(symbol)
                &&& forall|i: int|
                    0 <= i < count ==> (#[trigger] before.book().entries()[i]).0@ != symbol
            },
        forall|symbol: Seq<char>|
            after.positions().contains_key(symbol) ==> #[trigger] after.positions()[symbol]
                == before.positions()[symbol],
    decreases count,
{
    if count == 0 {
        assert(orders.take(0).len() == 0);
    } else {
        let done = orders.take(count as int);
        let last = count - 1;
        assert(done.drop_last() =~= orders.take(last));
        let middle = choose|middle: OrderExecutor|
            #![trigger carries_out(middle, done.last(), after)]
            carries_out_all(start, done.drop_last(), middle) && carries_out(
                middle,
                done.last(),
                after,
            );
        lemma_closing_orders_close(before, orders, now, start, last as nat, middle);
        let entries = before.book().entries();
        let order = orders[last];
        let key = entries[last].0@;
        let position = entries[last].1;
        symbol_map::lemma_entry_is_value(before.book(), last);
        assert(before.positions()[key] == position);
        assert(position.symbol@ == key);
        assert(before.makes(
            last as nat,
            position.symbol@,
            position.side.other(),
            position.lots,
            now,
            order,
        ));
        assert forall|i: int| 0 <= i < last implies (#[trigger] entries[i]).0@ != key by {
            assert(entries[i].0@ != entries[last].0@);
        }
        assert(middle.positions().contains_key(key));
        assert(middle.positions()[key] == position);
        lemma_closing_order_closes(middle, order, after);
        assert(after.positions() == middle.positions().remove(key));
        assert forall|symbol: Seq<char>|
            #![trigger after.positions().contains_key(symbol)]
            #![trigger before.positions().contains_key(symbol)]
            after.positions().contains_key(symbol) <==> {
                &&& before.positions().contains_key(symbol)
                &&& forall|i: int| 0 <= i < count ==> (#[trigger] entries[i]).0@ != symbol
            } by {
            assert(entries[last].0@ == key);
            assert(middle.positions().contains_key(symbol) == after.positions().contains_key(
                symbol,
            ) || symbol == key);
        }
    }
}

proof fn lemma_closing_order_closes(before: OrderExecutor, order: Order, after: OrderExecutor)
    requires
        !before.halted(),
        before.positions().contains_key(order.symbol@),
        before.positions()[order.symbol@].side.other() == order.side,
        before.positions()[order.symbol@].lots == order.lots,
        Double::of_integer(0).below(order.lots),
        carries_out(before, order, after),
    ensures
        !after.halted(),
        after.positions() == before.positions().remove(order.symbol@),
{
    double::lemma_integer_is_finite(0);
    double::lemma_difference_with_itself(order.lots);
}

/// Submitting and filling every order of `close_all_positions` leaves no position open. The
/// orders have ids of their own.
pub proof fn law_closing_orders_leave_nothing_open(
    before: OrderExecutor,
    orders: Seq<Order>,
    now: u64,
    start: OrderExecutor,
    after: OrderExecutor,
)
    requires
        before.wf(),
        !before.halted(),
        forall|i: int|
            0 <= i < before.book().entries().len() ==> Double::of_integer(0).below(
                (#[trigger] before.book().entries()[i]).1.lots,
            ),
        before.closes_with(orders, now),
        before.has_made(orders.len(), start),
        carries_out_all(start, orders, after),
        orders.len() <= 0x1_0000_0000_0000_0000,
    ensures
        forall|symbol: Seq<char>| !(#[trigger] after.positions().contains_key(symbol)),
        ids_differ(orders),
{
    assert(orders.take(orders.len() as int) =~= orders);
    lemma_closing_orders_close(before, orders, now, start, orders.len(), after);
    let entries = before.book().entries();
    assert forall|symbol: Seq<char>| !(#[trigger] after.positions().contains_key(symbol)) by {
        if after.positions().contains_key(symbol) {
            assert(symbol_map::has_key(entries, symbol));
            let i = choose|i: int| symbol_map::is_first(entries, symbol, i);
            assert(entries[i].0@ == symbol);
        }
    }
    assert forall|i: int, j: int|
        #![trigger orders[i], orders[j]]
        0 <= i < j < orders.len() implies orders[i].id != orders[j].id by {
        law_order_ids_differ(before.next_id(), i as nat, j as nat);
    }
}

} // verus!
