//! The tracing gate.
use sfu::trace::{
    should_sample_forward, traced_room, traced_session, tracing_enabled, TraceConfig, TraceGate,
    DEFAULT_FORWARD_SAMPLE,
};

/// With tracing disabled (default), `traced_room` is `false` for every room.
#[test]
fn disabled_gate_returns_false() {
    let gate = TraceGate::new();
    assert!(!tracing_enabled(&gate));
    assert!(!traced_room(&gate, "any-room"));
}

/// The sampler emits at the configured cadence.
#[test]
fn sampler_fires_one_in_n() {
    let mut gate = TraceGate::new();
    gate.sample_n = 10;
    gate.counter = 0;
    let fired = (0..100).filter(|_| should_sample_forward(&mut gate)).count();
    // 100 / 10 == 10 hits (counter starts at 0 -> indices 0,10,20,..,90).
    assert_eq!(fired, 10);
}

/// A zero divisor is clamped to 1 (sample everything) rather than dividing by zero.
#[test]
fn sampler_clamps_zero_divisor() {
    let mut gate = TraceGate::new();
    gate.sample_n = 0;
    gate.counter = 0;
    assert!(should_sample_forward(&mut gate));
}

fn text(s: &str) -> Option<String> {
    Some(s.to_string())
}

#[test]
fn gate_opens_for_one_room() {
    let mut gate = TraceGate::default();
    gate.init(text("den"), None, None);
    assert!(tracing_enabled(&gate));
    assert!(traced_room(&gate, "den"));
    assert!(!traced_room(&gate, "den "));
    assert!(!traced_room(&gate, "Den"));
    assert!(traced_session(&gate, "anyone"));
    gate.init(text("den"), text("17"), None);
    assert!(traced_session(&gate, "17"));
    assert!(!traced_session(&gate, "18"));
}

#[test]
fn empty_names_count_as_unset() {
    let mut gate = TraceGate::new();
    gate.init(text(""), text(""), None);
    assert!(!tracing_enabled(&gate));
    assert!(!traced_room(&gate, ""));
    assert!(traced_session(&gate, "17"));
    let config = TraceConfig::default();
    assert!(config.room.is_none());
    assert!(config.session.is_none());
}

#[test]
fn density_is_read_from_the_environment() {
    let mut gate = TraceGate::new();
    assert_eq!(gate.sample_n, DEFAULT_FORWARD_SAMPLE);
    gate.init(None, None, text("3"));
    assert_eq!(gate.sample_n, 3);
    gate.init(None, None, text("0"));
    assert_eq!(gate.sample_n, 3);
    gate.init(None, None, text("three"));
    assert_eq!(gate.sample_n, 3);
    let hits: Vec<bool> = (0..7).map(|_| should_sample_forward(&mut gate)).collect();
    assert_eq!(hits, [true, false, false, true, false, false, true]);
}

#[test]
fn any_run_of_n_holds_one_sample() {
    for start in 0..20u64 {
        let mut gate = TraceGate::new();
        gate.sample_n = 6;
        gate.counter = start;
        let fired = (0..6).filter(|_| should_sample_forward(&mut gate)).count();
        assert_eq!(fired, 1, "from {start}");
    }
}

#[test]
fn count_starts_again_after_its_largest_value() {
    let mut gate = TraceGate::new();
    gate.sample_n = 4;
    gate.counter = u64::MAX;
    assert!(!should_sample_forward(&mut gate));
    assert_eq!(gate.counter, 0);
    assert!(should_sample_forward(&mut gate));
}
