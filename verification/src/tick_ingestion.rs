//! Tick ingestion: a rolling window of market data for each symbol.
use vstd::prelude::*;
use std::collections::VecDeque;
use crate::clock;
use crate::double::worth::{
    beyond, exact_product, lemma_beyond, lemma_itself, lemma_order, lemma_sized_product,
    lemma_sized_widens, lemma_times, ordinary,
};
use crate::double::Double;
use crate::symbol_map::SymbolMap;

pub mod laws;

verus! {

/// A single market tick.
#[derive(Debug)]
pub struct Tick {
    pub symbol: String,
    pub bid: Double,
    pub ask: Double,
    pub bid_volume: Double,
    pub ask_volume: Double,
    /// Market timestamp.
    pub timestamp_ms: u64,
    /// Local receive timestamp.
    pub received_at_ms: u64,
    /// Number of decimal places.
    pub digits: u32,
    /// Smallest price change.
    pub point: Double,
    /// Value of one tick in account currency.
    pub tick_value: Double,
}

/// Number of decimals of a tick that names none.
pub fn default_digits() -> (r: u32)
    ensures
        r == 5,
{
    5
}

/// Smallest price change of a tick that names none.
pub fn default_point() -> (r: Double)
    ensures
        r == Double::ratio(1, 100000),
{
    Double::from_ratio(1, 100000)
}

/// Tick value of a tick that names none.
pub fn default_tick_value() -> (r: Double)
    ensures
        r == Double::of_integer(1),
{
    Double::from_u64(1)
}

/// How many pips one unit of price is, by the symbol's number of decimals.
pub open spec fn pips_per_unit(digits: u32) -> Double {
    if digits == 5 || digits == 4 {
        Double::of_integer(10000)
    } else if digits == 3 {
        Double::of_integer(100)
    } else {
        Double::of_integer(1)
    }
}

pub(crate) fn pip_multiplier_of(digits: u32) -> (r: Double)
    ensures
        r == pips_per_unit(digits),
{
    match digits {
        5 | 4 => Double::from_u64(10000),
        3 => Double::from_u64(100),
        _ => Double::from_u64(1),
    }
}

impl Clone for Tick {
    fn clone(&self) -> (r: Tick)
        ensures
            r == *self,
    {
        Tick {
            symbol: self.symbol.clone(),
            bid: self.bid,
            ask: self.ask,
            bid_volume: self.bid_volume,
            ask_volume: self.ask_volume,
            timestamp_ms: self.timestamp_ms,
            received_at_ms: self.received_at_ms,
            digits: self.digits,
            point: self.point,
            tick_value: self.tick_value,
        }
    }
}

impl Tick {
    /// Spread in pips.
    pub open spec fn spread(&self) -> Double {
        self.ask.difference(self.bid).product(pips_per_unit(self.digits))
    }

    /// Half way between bid and ask.
    pub open spec fn mid(&self) -> Double {
        self.bid.sum(self.ask).quotient(Double::of_integer(2))
    }

    /// Time from market to system; none where the market's clock is ahead.
    pub open spec fn latency(&self) -> i64 {
        if self.received_at_ms >= self.timestamp_ms {
            (self.received_at_ms - self.timestamp_ms) as i64
        } else {
            0
        }
    }

    /// Multiplier to convert price to pips.
    pub fn pip_multiplier(&self) -> (r: Double)
        ensures
            r == pips_per_unit(self.digits),
    {
        pip_multiplier_of(self.digits)
    }

    /// Calculate spread in pips.
    pub fn spread_pips(&self) -> (r: Double)
        ensures
            r == self.spread(),
    {
        self.ask.minus(self.bid).times(self.pip_multiplier())
    }

    /// Calculate mid price.
    pub fn mid_price(&self) -> (r: Double)
        ensures
            r == self.mid(),
    {
        self.bid.plus(self.ask).over(Double::from_u64(2))
    }

    /// Calculate latency from market to system.
    pub fn latency_ms(&self) -> (r: i64)
        ensures
            r == self.latency(),
    {
        if self.received_at_ms >= self.timestamp_ms {
            (self.received_at_ms - self.timestamp_ms) as i64
        } else {
            0
        }
    }
}

/// Tick buffer with rolling window.
pub struct TickBuffer {
    ticks: VecDeque<Tick>,
    max_size: usize,
    total_received: u64,
    avg_spread: Double,
    spread_samples: usize,
}

/// A window of ticks after one more: the oldest makes room where the window is full.
pub open spec fn rolled(ticks: Seq<Tick>, max_size: usize, tick: Tick) -> Seq<Tick> {
    if ticks.len() >= max_size && ticks.len() > 0 {
        ticks.drop_first().push(tick)
    } else {
        ticks.push(tick)
    }
}

/// Exponential moving average: one hundredth of the new sample, the rest of the old average.
pub open spec fn averaged(average: Double, sample: Double) -> Double {
    Double::ratio(1, 100).product(sample).sum(
        Double::of_integer(1).difference(Double::ratio(1, 100)).product(average),
    )
}

/// Pips per second from one tick to another, if they are more than a millisecond apart.
pub open spec fn velocity_between(first: Tick, last: Tick) -> Option<Double> {
    let seconds = Double::of_integer((last.received_at_ms - first.received_at_ms) as u64).quotient(
        Double::of_integer(1000),
    );
    if Double::ratio(1, 1000).below(seconds) {
        Some(
            last.mid().difference(first.mid()).product(pips_per_unit(last.digits)).quotient(
                seconds,
            ),
        )
    } else {
        None
    }
}

impl TickBuffer {
    /// The ticks held, oldest first.
    pub closed spec fn ticks(&self) -> Seq<Tick> {
        self.ticks@
    }

    /// How many ticks are kept.
    pub closed spec fn capacity(&self) -> usize {
        self.max_size
    }

    /// How many ticks have come in.
    pub closed spec fn received(&self) -> u64 {
        self.total_received
    }

    /// The moving average of the spread.
    pub closed spec fn average(&self) -> Double {
        self.avg_spread
    }

    /// How many samples the average has seen.
    pub closed spec fn samples(&self) -> usize {
        self.spread_samples
    }

    /// The window holds no more ticks than it keeps; the latest is always kept.
    pub open spec fn wf(&self) -> bool {
        &&& self.ticks().len() <= self.capacity() || self.ticks().len() <= 1
        &&& self.ticks().len() > 0 ==> self.samples() > 0
    }

    /// `tick` leads from this buffer to `after`.
    pub open spec fn takes(&self, tick: Tick, after: TickBuffer) -> bool {
        &&& after.ticks() == rolled(self.ticks(), self.capacity(), tick)
        &&& after.capacity() == self.capacity()
        &&& after.received() == if self.received() == u64::MAX {
            0
        } else {
            self.received() + 1
        }
        &&& after.average() == if self.samples() == 0 {
            tick.spread()
        } else {
            averaged(self.average(), tick.spread())
        }
        &&& after.samples() == if self.samples() == usize::MAX {
            usize::MAX as int
        } else {
            self.samples() + 1
        }
    }

    /// The ticks received at or after `cutoff`.
    pub open spec fn window(&self, cutoff: u64) -> Seq<Tick> {
        self.ticks().filter(|t: Tick| t.received_at_ms >= cutoff)
    }

    /// The window from `cutoff` does not end before it starts.
    pub open spec fn measurable(&self, cutoff: u64) -> bool {
        let window = self.window(cutoff);
        window.len() >= 2 ==> window.first().received_at_ms <= window.last().received_at_ms
    }

    /// Pips per second over the last `window_ms` before `now`.
    pub open spec fn velocity(&self, window_ms: u64, now: u64) -> Option<Double> {
        let window = self.window(oldest(window_ms, now));
        if window.len() < 2 {
            None
        } else {
            velocity_between(window.first(), window.last())
        }
    }

    /// The windows that the acceleration is measured over can be measured: half the window
    /// where there are ticks enough, and all of it where half of it has a velocity.
    pub open spec fn acceleration_measurable(&self, window_ms: u64, now: u64) -> bool {
        self.ticks().len() >= 10 ==> {
            &&& self.measurable(oldest(window_ms / 2, now))
            &&& self.velocity(window_ms / 2, now) is Some ==> self.measurable(
                oldest(window_ms, now),
            )
        }
    }

    /// How the velocity over half the window differs from that over all of it.
    pub open spec fn acceleration(&self, window_ms: u64, now: u64) -> Option<Double> {
        if self.ticks().len() < 10 {
            None
        } else {
            match (self.velocity(window_ms / 2, now), self.velocity(window_ms, now)) {
                (Some(recent), Some(full)) => Some(recent.difference(full)),
                _ => None,
            }
        }
    }
}

/// Start of the window of `window_ms` before `now`, no earlier than zero.
pub open spec fn oldest(window_ms: u64, now: u64) -> u64 {
    if now >= window_ms {
        (now - window_ms) as u64
    } else {
        0
    }
}

impl TickBuffer {
    pub fn new(max_size: usize) -> (r: TickBuffer)
        ensures
            r.ticks() == Seq::<Tick>::empty(),
            r.capacity() == max_size,
            r.received() == 0,
            r.average() == Double::of_integer(0),
            r.samples() == 0,
            r.wf(),
    {
        TickBuffer {
            ticks: VecDeque::new(),
            max_size,
            total_received: 0,
            avg_spread: Double::from_u64(0),
            spread_samples: 0,
        }
    }

    /// Add a tick to the buffer.
    pub fn push(&mut self, tick: Tick)
        ensures
            old(self).takes(tick, *final(self)),
            old(self).wf() ==> final(self).wf(),
    {
        let spread: Double = tick.spread_pips();
        if self.spread_samples == 0 {
            self.avg_spread = spread;
        } else {
            // Slow decay for a stable average
            let alpha: Double = Double::from_ratio(1, 100);
            self.avg_spread = alpha.times(spread).plus(
                Double::from_u64(1).minus(alpha).times(self.avg_spread),
            );
        }
        self.spread_samples = self.spread_samples.saturating_add(1);
        if self.ticks.len() >= self.max_size {
            let _ = self.ticks.pop_front();
        }
        self.ticks.push_back(tick);
        self.total_received = self.total_received.wrapping_add(1);
        assert(self.ticks@ =~= rolled(old(self).ticks@, old(self).max_size, tick));
    }

    /// Get the latest `count` ticks.
    pub fn latest(&self, count: usize) -> (r: Vec<&Tick>)
        ensures
            r@.len() == if count < self.ticks().len() {
                count as nat
            } else {
                self.ticks().len()
            },
            forall|i: int|
                0 <= i < r@.len() ==> *#[trigger] r@[i] == self.ticks()[self.ticks().len()
                    - r@.len() + i],
    {
        let start: usize = self.ticks.len().saturating_sub(count);
        let mut r: Vec<&Tick> = Vec::new();
        let mut i: usize = start;
        while i < self.ticks.len()
            invariant
                start <= i <= self.ticks@.len(),
                r@.len() == i - start,
                forall|j: int| 0 <= j < r@.len() ==> *#[trigger] r@[j] == self.ticks@[start + j],
            decreases self.ticks.len() - i,
        {
            r.push(&self.ticks[i]);
            i = i + 1;
        }
        r
    }

    fn last(&self) -> (r: Option<&Tick>)
        ensures
            r == if self.ticks().len() > 0 {
                Some(&self.ticks().last())
            } else {
                None::<&Tick>
            },
    {
        let n: usize = self.ticks.len();
        if n > 0 {
            Some(&self.ticks[n - 1])
        } else {
            None
        }
    }

    /// Get current spread.
    pub fn current_spread(&self) -> (r: Option<Double>)
        ensures
            r == if self.ticks().len() > 0 {
                Some(self.ticks().last().spread())
            } else {
                None::<Double>
            },
    {
        match self.last() {
            Some(tick) => Some(tick.spread_pips()),
            None => None,
        }
    }

    /// Get average spread.
    pub fn average_spread(&self) -> (r: Double)
        ensures
            r == self.average(),
    {
        self.avg_spread
    }

    /// Check if the spread is wider than its average times `threshold_multiplier`.
    pub fn is_spread_abnormal(&self, threshold_multiplier: Double) -> (r: bool)
        ensures
            r == (self.ticks().len() > 0 && self.average().product(threshold_multiplier).below(
                self.ticks().last().spread(),
            )),
            self.ticks().len() == 0 ==> !r,
            self.ticks().len() > 0 && self.ticks().last().spread().finite() && ordinary(
                self.average(),
            ) && ordinary(threshold_multiplier) ==> {
                let current = self.ticks().last().spread().worth();
                let bound = self.average().worth() * threshold_multiplier.worth();
                &&& beyond(current, bound) ==> r
                &&& beyond(bound, current) ==> !r
                &&& exact_product(self.average(), threshold_multiplier) ==> (r <==> current > bound)
            },
    {
        proof {
            if self.ticks().len() > 0 && self.ticks().last().spread().finite() && ordinary(
                self.average(),
            ) && ordinary(threshold_multiplier) {
                let current = self.ticks().last().spread();
                let (a, m) = (self.average().worth(), threshold_multiplier.worth());
                lemma_itself(a, 0);
                lemma_itself(m, 0);
                lemma_itself(current.worth(), 0);
                lemma_sized_product(a, m, 100, 100);
                lemma_sized_widens(a * m, 200, 900);
                lemma_times(self.average(), threshold_multiplier, a, m, 0, 0);
                let bound = self.average().product(threshold_multiplier);
                lemma_beyond(bound.worth(), current.worth(), a * m, current.worth(), 1, 0);
                lemma_order(bound, current);
            }
        }
        match self.current_spread() {
            Some(current) => current.is_above(self.avg_spread.times(threshold_multiplier)),
            None => false,
        }
    }

    /// Get current latency.
    pub fn current_latency_ms(&self) -> (r: Option<i64>)
        ensures
            r == if self.ticks().len() > 0 {
                Some(self.ticks().last().latency())
            } else {
                None::<i64>
            },
    {
        match self.last() {
            Some(tick) => Some(tick.latency_ms()),
            None => None,
        }
    }

    /// Calculate price velocity (pips per second) up to now, by the wall clock.
    pub fn price_velocity(&self, window_ms: u64) -> (r: Option<Double>)
        requires
            forall|now: u64| self.measurable(#[trigger] oldest(window_ms, now)),
        ensures
            exists|reading: std::time::SystemTime|
                r == self.velocity(
                    window_ms,
                    clock::timestamp_of(#[trigger] clock::elapsed(reading)),
                ),
    {
        let now: u64 = clock::now_ms();
        assert(self.measurable(oldest(window_ms, now)));
        self.price_velocity_at(window_ms, now)
    }

    /// Calculate price velocity (pips per second) up to time `now`.
    pub fn price_velocity_at(&self, window_ms: u64, now: u64) -> (r: Option<Double>)
        requires
            self.measurable(oldest(window_ms, now)),
        ensures
            r == self.velocity(window_ms, now),
    {
        let cutoff: u64 = now.saturating_sub(window_ms);
        let ghost kept = |t: Tick| t.received_at_ms >= cutoff;
        let mut window: Vec<&Tick> = Vec::new();
        let mut i: usize = 0;
        assert(self.ticks@.take(0).filter(kept) =~= Seq::<Tick>::empty()) by {
            reveal(Seq::filter);
        }
        while i < self.ticks.len()
            invariant
                i <= self.ticks@.len(),
                kept == (|t: Tick| t.received_at_ms >= cutoff),
                window@.len() == self.ticks@.take(i as int).filter(kept).len(),
                forall|j: int|
                    0 <= j < window@.len() ==> *#[trigger] window@[j] == self.ticks@.take(
                        i as int,
                    ).filter(kept)[j],
            decreases self.ticks.len() - i,
        {
            proof {
                reveal(Seq::filter);
                assert(self.ticks@.take(i + 1).drop_last() =~= self.ticks@.take(i as int));
                assert(self.ticks@.take(i + 1).last() == self.ticks@[i as int]);
            }
            let tick: &Tick = &self.ticks[i];
            if tick.received_at_ms >= cutoff {
                window.push(tick);
            }
            i = i + 1;
        }
        assert(self.ticks@.take(i as int) =~= self.ticks@);
        let n: usize = window.len();
        if n < 2 {
            return None;
        }
        let first: &Tick = window[0];
        let last: &Tick = window[n - 1];
        assert(*first == self.window(cutoff).first());
        assert(*last == self.window(cutoff).last());
        let multiplier: Double = last.pip_multiplier();
        let price_change: Double = last.mid_price().minus(first.mid_price()).times(multiplier);
        let time_diff: Double = Double::from_u64(
            last.received_at_ms - first.received_at_ms,
        ).over(Double::from_u64(1000));
        if time_diff.is_above(Double::from_ratio(1, 1000)) {
            Some(price_change.over(time_diff))
        } else {
            None
        }
    }

    /// Calculate price acceleration up to now, by the wall clock.
    pub fn price_acceleration(&self, window_ms: u64) -> (r: Option<Double>)
        requires
            forall|now: u64| #[trigger] self.acceleration_measurable(window_ms, now),
        ensures
            exists|reading: std::time::SystemTime|
                r == self.acceleration(
                    window_ms,
                    clock::timestamp_of(#[trigger] clock::elapsed(reading)),
                ),
    {
        let now: u64 = clock::now_ms();
        assert(self.acceleration_measurable(window_ms, now));
        self.price_acceleration_at(window_ms, now)
    }

    /// Calculate price acceleration up to time `now`.
    pub fn price_acceleration_at(&self, window_ms: u64, now: u64) -> (r: Option<Double>)
        requires
            self.acceleration_measurable(window_ms, now),
        ensures
            r == self.acceleration(window_ms, now),
    {
        if self.ticks.len() < 10 {
            return None;
        }
        match self.price_velocity_at(window_ms / 2, now) {
            Some(recent) => match self.price_velocity_at(window_ms, now) {
                Some(full) => Some(recent.minus(full)),
                None => None,
            },
            None => None,
        }
    }

    /// Get total ticks received.
    pub fn total_received(&self) -> (r: u64)
        ensures
            r == self.received(),
    {
        self.total_received
    }

    /// Get buffer size.
    pub fn len(&self) -> (r: usize)
        ensures
            r == self.ticks().len(),
    {
        self.ticks.len()
    }

    pub fn is_empty(&self) -> (r: bool)
        ensures
            r == (self.ticks().len() == 0),
    {
        self.ticks.len() == 0
    }
}

/// Tick ingestion service: one buffer for each symbol.
pub struct TickIngestion {
    buffers: SymbolMap<TickBuffer>,
    max_buffer_size: usize,
}

impl TickIngestion {
    /// The buffer of each symbol that has sent a tick.
    pub closed spec fn buffers(&self) -> Map<Seq<char>, TickBuffer> {
        self.buffers@
    }

    /// Size of the buffers that are made.
    pub closed spec fn buffer_size(&self) -> usize {
        self.max_buffer_size
    }

    /// Every buffer is in order.
    pub open spec fn wf(&self) -> bool {
        forall|symbol: Seq<char>|
            self.buffers().contains_key(symbol) ==> (#[trigger] self.buffers()[symbol]).wf()
    }

    /// The latest tick of a symbol, if it has one.
    pub open spec fn latest_of(&self, symbol: Seq<char>) -> Option<Tick> {
        if self.buffers().contains_key(symbol) && self.buffers()[symbol].ticks().len() > 0 {
            Some(self.buffers()[symbol].ticks().last())
        } else {
            None
        }
    }

    pub fn new(max_buffer_size: usize) -> (r: TickIngestion)
        ensures
            r.buffers() == Map::<Seq<char>, TickBuffer>::empty(),
            r.buffer_size() == max_buffer_size,
            r.wf(),
    {
        TickIngestion { buffers: SymbolMap::new(), max_buffer_size }
    }

    /// Process an incoming tick. Late ticks are taken too.
    pub fn process_tick(&mut self, tick: Tick) -> (r: Result<(), String>)
        ensures
            r == Ok::<(), String>(()),
            final(self).buffer_size() == old(self).buffer_size(),
            final(self).buffers() == old(self).buffers().insert(
                tick.symbol@,
                final(self).buffers()[tick.symbol@],
            ),
            old(self).buffers().contains_key(tick.symbol@) ==> old(
                self,
            ).buffers()[tick.symbol@].takes(tick, final(self).buffers()[tick.symbol@]),
            !old(self).buffers().contains_key(tick.symbol@) ==> {
                let buffer = final(self).buffers()[tick.symbol@];
                &&& buffer.ticks() == seq![tick]
                &&& buffer.capacity() == old(self).buffer_size()
                &&& buffer.received() == 1
                &&& buffer.average() == tick.spread()
                &&& buffer.samples() == 1
            },
            old(self).wf() ==> final(self).wf(),
    {
        if self.buffers.contains_key(tick.symbol.as_str()) {
            let symbol: String = tick.symbol.clone();
            if let Some(buffer) = self.buffers.get_mut(symbol.as_str()) {
                buffer.push(tick);
            }
        } else {
            let symbol: String = tick.symbol.clone();
            let mut buffer: TickBuffer = TickBuffer::new(self.max_buffer_size);
            buffer.push(tick);
            self.buffers.insert(symbol, buffer);
            assert(buffer.ticks() =~= seq![tick]);
        }
        assert(self.buffers() =~= old(self).buffers().insert(
            tick.symbol@,
            self.buffers()[tick.symbol@],
        ));
        Ok(())
    }

    /// Get buffer for a symbol.
    pub fn get_buffer(&self, symbol: &str) -> (r: Option<&TickBuffer>)
        ensures
            r is Some <==> self.buffers().contains_key(symbol@),
            r is Some ==> *r->0 == self.buffers()[symbol@],
    {
        self.buffers.get(symbol)
    }

    /// Get mutable buffer for a symbol.
    pub fn get_buffer_mut(&mut self, symbol: &str) -> (r: Option<&mut TickBuffer>)
        ensures
            r is Some <==> old(self).buffers().contains_key(symbol@),
            match r {
                Some(buffer) => {
                    &&& *buffer == old(self).buffers()[symbol@]
                    &&& final(self).buffers() == old(self).buffers().insert(
                        symbol@,
                        *final(buffer),
                    )
                    &&& final(self).buffer_size() == old(self).buffer_size()
                },
                None => *final(self) == *old(self),
            },
    {
        self.buffers.get_mut(symbol)
    }
}

proof fn lemma_filter_keeps_order(ticks: Seq<Tick>, cutoff: u64)
    requires
        forall|i: int, j: int|
            #![trigger ticks[i], ticks[j]]
            0 <= i < j < ticks.len() ==> ticks[i].received_at_ms <= ticks[j].received_at_ms,
    ensures
        ({
            let window = ticks.filter(|t: Tick| t.received_at_ms >= cutoff);
            window.len() > 0 ==> ticks.len() > 0 && window.first().received_at_ms
                <= window.last().received_at_ms <= ticks.last().received_at_ms
        }),
    decreases ticks.len(),
{
    reveal(Seq::filter);
    if ticks.len() > 0 {
        lemma_filter_keeps_order(ticks.drop_last(), cutoff);
    }
}

/// Where the ticks came in by the clock's order, velocity can be measured over any window.
pub proof fn law_ordered_ticks_are_measurable(buffer: TickBuffer, cutoff: u64)
    requires
        forall|i: int, j: int|
            #![trigger buffer.ticks()[i], buffer.ticks()[j]]
            0 <= i < j < buffer.ticks().len() ==> buffer.ticks()[i].received_at_ms
                <= buffer.ticks()[j].received_at_ms,
    ensures
        buffer.measurable(cutoff),
{
    lemma_filter_keeps_order(buffer.ticks(), cutoff);
}

/// A buffer always holds the latest tick, last, and never more ticks than it keeps.
pub proof fn law_buffer_is_bounded(before: TickBuffer, tick: Tick, after: TickBuffer)
    requires
        before.wf(),
        before.takes(tick, after),
    ensures
        after.wf(),
        after.ticks().len() > 0,
        after.ticks().last() == tick,
        before.capacity() > 0 ==> after.ticks().len() <= before.capacity(),
{
}

/// Until it is full, a buffer loses no tick; once it is full, it loses the oldest alone.
pub proof fn law_buffer_drops_the_oldest(before: TickBuffer, tick: Tick, after: TickBuffer)
    requires
        before.takes(tick, after),
    ensures
        before.ticks().len() < before.capacity() ==> after.ticks().drop_last()
            == before.ticks(),
        before.ticks().len() >= before.capacity() && before.ticks().len() > 0
            ==> after.ticks().drop_last() == before.ticks().drop_first(),
{
    if before.ticks().len() < before.capacity() {
        assert(after.ticks().drop_last() =~= before.ticks());
    }
    if before.ticks().len() >= before.capacity() && before.ticks().len() > 0 {
        assert(after.ticks().drop_last() =~= before.ticks().drop_first());
    }
}

} // verus!
