//! The liveness probe.
use sfu::forwarding_health::{
    combined_health_decision, forwarding_health_decision, forwarding_silence_threshold,
    inbound_saturation_threshold, saturation_health_decision, ForwardingHealth,
    ForwardingHealthSnapshot, HealthStatus, DEFAULT_FORWARDING_SILENCE_THRESHOLD,
    DEFAULT_INBOUND_SATURATION_THRESHOLD, FORWARDING_SILENCE_THRESHOLD_ENV,
    INBOUND_SATURATION_THRESHOLD_ENV, NEVER,
};

const THRESH: u64 = 45_000;

#[test]
fn idle_empty_sfu_is_healthy() {
    // Nothing ever observed: no should-forward, no forward.
    let s = forwarding_health_decision(100_000, NEVER, NEVER, THRESH);
    assert_eq!(s, HealthStatus::Healthy);
    assert!(s.is_healthy());
}

#[test]
fn idle_with_stale_should_forward_is_healthy() {
    // A room WAS populated long ago, but not within the threshold — the
    // pod is now quiet/empty. A stale forward timestamp must not trip 503.
    let now = 1_000_000;
    let last_forward = 10_000; // ancient
    let last_should = 20_000; // also ancient (> threshold ago)
    assert_eq!(
        forwarding_health_decision(now, last_forward, last_should, THRESH),
        HealthStatus::Healthy
    );
}

#[test]
fn forwarding_recently_is_healthy() {
    // Both fresh: we expect forwarding and it is happening.
    let now = 1_000_000;
    let last_forward = now - 5_000;
    let last_should = now - 1_000;
    assert_eq!(
        forwarding_health_decision(now, last_forward, last_should, THRESH),
        HealthStatus::Healthy
    );
}

#[test]
fn silent_past_threshold_with_receivers_and_publishers_is_unhealthy() {
    // We observed a should-forward room recently, but no forward has
    // happened within the threshold → forwarding is dead while it should
    // be alive.
    let now = 1_000_000;
    let last_should = now - 1_000; // expect forwarding now
    let last_forward = now - 60_000; // but last forward was 60s ago (> 45s)
    assert_eq!(
        forwarding_health_decision(now, last_forward, last_should, THRESH),
        HealthStatus::ForwardingStalled
    );
}

#[test]
fn expecting_but_never_forwarded_is_unhealthy() {
    // Watchdog sees a populated room, but forwarding has NEVER produced a
    // single forward — a wedged subscription from the start.
    let now = 1_000_000;
    let last_should = now - 500;
    assert_eq!(
        forwarding_health_decision(now, NEVER, last_should, THRESH),
        HealthStatus::ForwardingStalled
    );
}

#[test]
fn boundary_exactly_at_threshold_is_healthy() {
    // `<= threshold` is inclusive: a forward exactly `threshold` ago still
    // counts as recent, so we do not flap at the exact boundary.
    let now = 1_000_000;
    let last_should = now - 100;
    let last_forward = now - THRESH;
    assert_eq!(
        forwarding_health_decision(now, last_forward, last_should, THRESH),
        HealthStatus::Healthy
    );
}

#[test]
fn zero_threshold_disables_check() {
    // Even with a clearly-stalled signal, a 0 threshold means "always
    // healthy" (escape hatch / disable).
    let now = 1_000_000;
    let last_should = now - 1;
    let last_forward = NEVER;
    assert_eq!(
        forwarding_health_decision(now, last_forward, last_should, 0),
        HealthStatus::Healthy
    );
}

#[test]
fn threshold_env_falls_back_on_garbage() {
    assert_eq!(FORWARDING_SILENCE_THRESHOLD_ENV, "SFU_FORWARDING_SILENCE_MS");
    assert_eq!(
        forwarding_silence_threshold(Some("not-a-number".to_string())),
        DEFAULT_FORWARDING_SILENCE_THRESHOLD
    );
    assert_eq!(forwarding_silence_threshold(Some("12000".to_string())), 12_000);
    assert_eq!(forwarding_silence_threshold(None), DEFAULT_FORWARDING_SILENCE_THRESHOLD);
}

#[test]
fn global_singleton_records_and_snapshots() {
    let mut h = ForwardingHealth::new();
    h.note_should_forward(0);
    h.note_forward(0);
    h.note_inbound_drop(0);
    let snap = h.snapshot();
    // All three stamped to a real (non-NEVER) value.
    assert_ne!(snap.last_forward_ms, NEVER);
    assert_ne!(snap.last_should_forward_ms, NEVER);
    assert_ne!(snap.last_inbound_drop_ms, NEVER);
}

const SAT: u64 = 15_000;

#[test]
fn saturation_no_drops_ever_is_healthy() {
    // A populated, actively-forwarding room with NO drops ever recorded.
    // CRITICAL no-false-positive case at normal load.
    let now = 1_000_000;
    let last_should = now - 500;
    assert_eq!(
        saturation_health_decision(now, last_should, NEVER, SAT),
        HealthStatus::Healthy
    );
}

#[test]
fn saturation_old_drops_is_healthy() {
    // A single historical SlowConsumer (e.g. one brief burst minutes ago).
    // It has aged out of the window → must NOT wedge /healthz at 503. This
    // is the anti-wedge property.
    let now = 1_000_000;
    let last_should = now - 500; // forwarding expected now
    let last_drop = now - 60_000; // drop was 60s ago (> 15s window)
    assert_eq!(
        saturation_health_decision(now, last_should, last_drop, SAT),
        HealthStatus::Healthy
    );
}

#[test]
fn saturation_recent_drops_with_receivers_is_unhealthy() {
    // The target case: receivers+publishers present (should-forward recent)
    // AND drops are happening right now → late joiners are being starved
    // invisibly → 503 so the pod restarts.
    let now = 1_000_000;
    let last_should = now - 500;
    let last_drop = now - 1_000; // within the 15s window
    assert_eq!(
        saturation_health_decision(now, last_should, last_drop, SAT),
        HealthStatus::ForwardingStalled
    );
}

#[test]
fn saturation_recent_drops_no_receivers_is_healthy() {
    // Drops are recent, but NO room currently expects forwarding (idle pod,
    // or a low-volume non-media subscriber on the shared connection tripped
    // SlowConsumer). Nobody is being starved → healthy.
    let now = 1_000_000;
    let last_should = now - 60_000; // stale: no room expects forwarding now
    let last_drop = now - 1_000; // drop is recent
    assert_eq!(
        saturation_health_decision(now, last_should, last_drop, SAT),
        HealthStatus::Healthy
    );
}

#[test]
fn saturation_never_should_forward_is_healthy() {
    // Brand-new idle pod: a drop on a control subscriber, no forwarding
    // ever expected.
    let now = 1_000_000;
    let last_drop = now - 100;
    assert_eq!(
        saturation_health_decision(now, NEVER, last_drop, SAT),
        HealthStatus::Healthy
    );
}

#[test]
fn saturation_zero_threshold_disables_check() {
    // Even a clear saturation signal yields healthy when disabled.
    let now = 1_000_000;
    let last_should = now - 100;
    let last_drop = now - 100;
    assert_eq!(
        saturation_health_decision(now, last_should, last_drop, 0),
        HealthStatus::Healthy
    );
}

#[test]
fn saturation_boundary_exactly_at_threshold_is_unhealthy() {
    // `<= threshold` is inclusive on both gates: a drop exactly `threshold`
    // ago with a should-forward exactly `threshold` ago still counts as
    // recent, so we do not flap right at the boundary.
    let now = 1_000_000;
    let last_should = now - SAT;
    let last_drop = now - SAT;
    assert_eq!(
        saturation_health_decision(now, last_should, last_drop, SAT),
        HealthStatus::ForwardingStalled
    );
}

#[test]
fn saturation_threshold_env_falls_back_on_garbage() {
    assert_eq!(INBOUND_SATURATION_THRESHOLD_ENV, "SFU_INBOUND_SATURATION_MS");
    assert_eq!(
        inbound_saturation_threshold(Some("not-a-number".to_string())),
        DEFAULT_INBOUND_SATURATION_THRESHOLD
    );
    assert_eq!(inbound_saturation_threshold(Some("9000".to_string())), 9_000);
    assert_eq!(inbound_saturation_threshold(None), DEFAULT_INBOUND_SATURATION_THRESHOLD);
}

fn snap(forward: u64, should: u64, drop: u64) -> ForwardingHealthSnapshot {
    ForwardingHealthSnapshot {
        last_forward_ms: forward,
        last_should_forward_ms: should,
        last_inbound_drop_ms: drop,
    }
}

#[test]
fn combined_healthy_when_forwarding_and_no_drops() {
    let now = 1_000_000;
    let s = snap(now - 1_000, now - 500, NEVER);
    assert_eq!(
        combined_health_decision(now, s, THRESH, SAT),
        HealthStatus::Healthy
    );
}

#[test]
fn combined_unhealthy_on_silence() {
    // Silence path trips even with no drops.
    let now = 1_000_000;
    let s = snap(now - 60_000, now - 500, NEVER);
    assert_eq!(
        combined_health_decision(now, s, THRESH, SAT),
        HealthStatus::ForwardingStalled
    );
}

#[test]
fn combined_unhealthy_on_saturation_while_silence_healthy() {
    // The invisible-saturation case: forwarding is happening
    // (silence is HEALTHY because the dispatcher keeps draining the
    // messages that got through) yet inbound is being dropped right now.
    // The combined decision catches it via the saturation arm.
    let now = 1_000_000;
    let s = snap(now - 500, now - 500, now - 1_000);
    assert_eq!(
        forwarding_health_decision(now, s.last_forward_ms, s.last_should_forward_ms, THRESH),
        HealthStatus::Healthy,
        "silence path alone must be blind to this"
    );
    assert_eq!(
        combined_health_decision(now, s, THRESH, SAT),
        HealthStatus::ForwardingStalled
    );
}

#[test]
fn records_keep_the_time_of_each_event() {
    let mut h = ForwardingHealth::default();
    assert_eq!(h.snapshot(), snap(NEVER, NEVER, NEVER));
    h.note_forward(10);
    h.note_should_forward(20);
    h.note_inbound_drop(30);
    assert_eq!(h.snapshot(), snap(10, 20, 30));
    h.note_forward(40);
    assert_eq!(h.snapshot(), snap(40, 20, 30));
}

#[test]
fn a_clock_behind_an_event_reads_as_recent() {
    assert_eq!(forwarding_health_decision(100, 500, 500, 10), HealthStatus::Healthy);
    assert_eq!(saturation_health_decision(100, 500, 500, 10), HealthStatus::ForwardingStalled);
}

#[test]
fn a_drop_is_forgotten_after_its_window() {
    let s = snap(NEVER, NEVER, 1_000);
    let quiet = snap(NEVER, NEVER, NEVER);
    for now in [16_001, 20_000, 1_000_000] {
        let s = ForwardingHealthSnapshot { last_should_forward_ms: now, ..s };
        let quiet = ForwardingHealthSnapshot { last_should_forward_ms: now, ..quiet };
        assert_eq!(
            combined_health_decision(now, s, 0, SAT),
            combined_health_decision(now, quiet, 0, SAT)
        );
    }
}

#[test]
fn thresholds_are_read_between_white_space() {
    assert_eq!(forwarding_silence_threshold(Some(" 7\n".to_string())), 7);
    assert_eq!(forwarding_silence_threshold(Some("0".to_string())), 0);
    assert_eq!(forwarding_silence_threshold(Some("7 7".to_string())), 45_000);
    assert_eq!(inbound_saturation_threshold(Some("".to_string())), 15_000);
    assert_eq!(
        inbound_saturation_threshold(Some("18446744073709551616".to_string())),
        15_000
    );
}
