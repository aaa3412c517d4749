use fx_scalp_core::tick_ingestion::{default_digits, default_point, default_tick_value};
use fx_scalp_core::{Double, Tick, TickBuffer, TickIngestion};
use std::time::{SystemTime, UNIX_EPOCH};

fn d(x: f64) -> Double {
    Double::from_bits(x.to_bits())
}

fn f(x: Double) -> f64 {
    f64::from_bits(x.to_bits())
}

fn create_test_tick(bid: f64, ask: f64) -> Tick {
    let now = SystemTime::now().duration_since(UNIX_EPOCH).unwrap().as_millis() as u64;
    Tick {
        symbol: "EURUSD".to_string(),
        bid: d(bid),
        ask: d(ask),
        bid_volume: d(1000.0),
        ask_volume: d(1000.0),
        timestamp_ms: now,
        received_at_ms: now,
        digits: default_digits(),
        point: default_point(),
        tick_value: default_tick_value(),
    }
}

fn tick_at(bid: f64, ask: f64, received_at_ms: u64) -> Tick {
    let mut tick = create_test_tick(bid, ask);
    tick.timestamp_ms = received_at_ms;
    tick.received_at_ms = received_at_ms;
    tick
}

#[test]
fn test_spread_calculation() {
    let tick = create_test_tick(1.08500, 1.08510);
    assert!((f(tick.spread_pips()) - 1.0).abs() < 0.01); // 1 pip spread
}

#[test]
fn test_buffer_rolling() {
    let mut buffer = TickBuffer::new(3);

    buffer.push(create_test_tick(1.0, 1.1));
    buffer.push(create_test_tick(1.1, 1.2));
    buffer.push(create_test_tick(1.2, 1.3));
    buffer.push(create_test_tick(1.3, 1.4)); // Should push out first

    assert_eq!(buffer.len(), 3);
    assert_eq!(buffer.total_received(), 4);
    let latest = buffer.latest(10);
    assert_eq!(f(latest[0].bid), 1.1);
    assert_eq!(f(latest[2].bid), 1.3);
    assert_eq!(buffer.latest(1).len(), 1);
    assert_eq!(f(buffer.latest(1)[0].bid), 1.3);
    assert_eq!(buffer.latest(0).len(), 0);
}

#[test]
fn buffer_without_size_keeps_the_latest() {
    let mut buffer = TickBuffer::new(0);
    assert!(buffer.is_empty());
    buffer.push(create_test_tick(1.0, 1.1));
    buffer.push(create_test_tick(1.1, 1.2));
    assert_eq!(buffer.len(), 1);
    assert_eq!(f(buffer.latest(5)[0].bid), 1.1);
}

#[test]
fn defaults_of_a_tick() {
    assert_eq!(default_digits(), 5);
    assert_eq!(f(default_point()), 0.00001);
    assert_eq!(f(default_tick_value()), 1.0);
}

#[test]
fn pips_depend_on_the_digits() {
    let mut tick = create_test_tick(1.0, 1.5);
    let expected = [(5, 10000.0), (4, 10000.0), (3, 100.0), (2, 1.0), (1, 1.0), (0, 1.0), (7, 1.0)];
    for (digits, multiplier) in expected {
        tick.digits = digits;
        assert_eq!(f(tick.pip_multiplier()), multiplier);
        assert_eq!(f(tick.spread_pips()), 0.5 * multiplier);
    }
    assert_eq!(f(tick.mid_price()), 1.25);
}

#[test]
fn latency_is_never_negative() {
    let mut tick = create_test_tick(1.0, 1.1);
    tick.timestamp_ms = 1000;
    tick.received_at_ms = 1042;
    assert_eq!(tick.latency_ms(), 42);
    tick.received_at_ms = 900;
    assert_eq!(tick.latency_ms(), 0);
}

#[test]
fn spread_average_decays_slowly() {
    let mut buffer = TickBuffer::new(10);
    assert_eq!(buffer.current_spread().map(f), None);
    assert_eq!(buffer.current_latency_ms(), None);
    assert!(!buffer.is_spread_abnormal(d(1.5)));
    buffer.push(create_test_tick(1.0, 1.5));
    assert_eq!(f(buffer.average_spread()), 5000.0);
    buffer.push(create_test_tick(1.0, 2.0));
    assert_eq!(f(buffer.average_spread()), 0.01 * 10000.0 + (1.0 - 0.01) * 5000.0);
    assert_eq!(buffer.current_spread().map(f), Some(10000.0));
    assert!(buffer.is_spread_abnormal(d(1.5)));
    assert!(!buffer.is_spread_abnormal(d(2.5)));
    assert_eq!(buffer.current_latency_ms(), Some(0));
}

#[test]
fn velocity_is_pips_per_second() {
    let mut buffer = TickBuffer::new(100);
    assert!(buffer.price_velocity_at(1000, 5000).is_none());
    buffer.push(tick_at(1.0, 1.0, 1000));
    buffer.push(tick_at(1.5, 1.5, 4000));
    buffer.push(tick_at(1.25, 1.25, 4500));
    buffer.push(tick_at(2.0, 2.0, 5000));
    // From 4000 on
    assert_eq!(buffer.price_velocity_at(1000, 5000).map(f), Some((2.0 - 1.5) * 10000.0 / 1.0));
    // All of them, though the window is longer than the clock has run
    assert_eq!(buffer.price_velocity_at(9000, 5000).map(f), Some((2.0 - 1.0) * 10000.0 / 4.0));
    // One tick alone
    assert!(buffer.price_velocity_at(100, 5000).is_none());
    // Two ticks at one time
    buffer.push(tick_at(3.0, 3.0, 5000));
    assert!(buffer.price_velocity_at(100, 5000).is_none());
}

#[test]
fn acceleration_compares_two_windows() {
    let mut buffer = TickBuffer::new(100);
    for i in 0..9u64 {
        buffer.push(tick_at(1.0 + i as f64, 1.0 + i as f64, 1000 * i));
    }
    assert!(buffer.price_acceleration_at(8000, 8000).is_none());
    buffer.push(tick_at(20.0, 20.0, 9000));
    let recent = buffer.price_velocity_at(4000, 9000).map(f).unwrap();
    let full = buffer.price_velocity_at(8000, 9000).map(f).unwrap();
    assert_eq!(buffer.price_acceleration_at(8000, 9000).map(f), Some(recent - full));
    assert!(buffer.price_acceleration_at(1000, 9000).is_none());
}

#[test]
fn acceleration_without_ticks_enough_is_not_measured() {
    // The clock ran backwards between the two ticks
    let mut buffer = TickBuffer::new(100);
    buffer.push(tick_at(1.0, 1.0, 2000));
    buffer.push(tick_at(2.0, 2.0, 1000));
    assert!(buffer.price_acceleration_at(8000, 3000).is_none());
    assert!(buffer.price_acceleration(8000).is_none());
}

#[test]
fn wall_clock_velocity_sees_fresh_ticks_alone() {
    let mut buffer = TickBuffer::new(100);
    buffer.push(tick_at(1.0, 1.0, 1000));
    buffer.push(tick_at(2.0, 2.0, 2000));
    assert!(buffer.price_velocity(60000).is_none());
    assert!(buffer.price_acceleration(60000).is_none());
    let now = SystemTime::now().duration_since(UNIX_EPOCH).unwrap().as_millis() as u64;
    buffer.push(tick_at(1.0, 1.0, now - 2000));
    buffer.push(tick_at(2.0, 2.0, now - 1000));
    assert_eq!(buffer.price_velocity(600000).map(f), Some(10000.0));
}

#[test]
fn each_symbol_has_its_buffer() {
    let mut ingestion = TickIngestion::new(2);
    assert!(ingestion.get_buffer("EURUSD").is_none());
    assert_eq!(ingestion.process_tick(create_test_tick(1.0, 1.1)), Ok(()));
    let mut other = create_test_tick(2.0, 2.1);
    other.symbol = "GBPUSD".to_string();
    // A tick that is late by minutes is taken all the same
    other.timestamp_ms = other.received_at_ms - 600000;
    assert_eq!(ingestion.process_tick(other), Ok(()));
    assert_eq!(ingestion.process_tick(create_test_tick(1.2, 1.3)), Ok(()));
    assert_eq!(ingestion.process_tick(create_test_tick(1.4, 1.5)), Ok(()));
    assert_eq!(ingestion.get_buffer("EURUSD").unwrap().len(), 2);
    assert_eq!(f(ingestion.get_buffer("EURUSD").unwrap().latest(1)[0].bid), 1.4);
    assert_eq!(ingestion.get_buffer("GBPUSD").unwrap().len(), 1);
    assert!(ingestion.get_buffer_mut("USDJPY").is_none());
    ingestion.get_buffer_mut("GBPUSD").unwrap().push(create_test_tick(9.0, 9.1));
    assert_eq!(ingestion.get_buffer("GBPUSD").unwrap().len(), 2);
}
