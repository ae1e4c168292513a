//! Spillover of joiners from loaded owners.
use sfu::float32::Float32;
use sfu::health_beacon::{build_health_beacon_payload, system_subject, HealthBeaconPacket};
use sfu::packet::PacketType;
use sfu::spillover::{
    decode_beacon, ingest_beacon, room_id_from_subject, RoomSpilloverState, SpilloverStore,
    SPILLOVER_CPU_THRESHOLD, SPILLOVER_FRESHNESS_WINDOW, SPILLOVER_PARTICIPANT_THRESHOLD,
    SPILLOVER_PRUNE_HORIZON, SPILLOVER_SUBJECT_PATTERN,
};
use std::time::SystemTime;

const SECOND: u64 = 1_000_000_000;
const NOW: u64 = 1_000 * SECOND;

fn float(x: f32) -> Float32 {
    Float32 { bits: x.to_bits() }
}

fn value(x: Float32) -> f32 {
    f32::from_bits(x.bits)
}

fn state(owner_count: u32, owner_cpu: f32, last_seen: u64) -> RoomSpilloverState {
    RoomSpilloverState { owner_count, owner_cpu: float(owner_cpu), last_seen }
}

/// `count = 200` trips spillover.
#[test]
fn count_over_threshold_trips_spillover() {
    assert!(
        state(200, 0.10, NOW).is_spilled_over(NOW),
        "owner_count=200 must trip spillover (threshold is 180)"
    );
}

/// `cpu_load = 0.85` trips spillover.
#[test]
fn cpu_over_threshold_trips_spillover() {
    assert!(
        state(10, 0.85, NOW).is_spilled_over(NOW),
        "owner_cpu=0.85 must trip spillover (threshold is 0.80)"
    );
}

/// A beacon older than the freshness window must NOT trip spillover.
#[test]
fn stale_beacon_does_not_trip_spillover() {
    assert!(
        !state(500, 0.99, NOW - 16 * SECOND).is_spilled_over(NOW),
        "stale beacon (16s old) must not trip spillover"
    );
}

/// A fresh, under-threshold beacon means no spillover.
#[test]
fn fresh_under_threshold_does_not_trip_spillover() {
    assert!(
        !state(50, 0.20, NOW).is_spilled_over(NOW),
        "fresh beacon with count=50, cpu=0.2 must not trip spillover"
    );
}

/// The exact threshold is NOT spillover.
#[test]
fn at_threshold_does_not_trip_spillover() {
    assert_eq!(SPILLOVER_PARTICIPANT_THRESHOLD, 180);
    assert!(
        !state(SPILLOVER_PARTICIPANT_THRESHOLD, 0.0, NOW).is_spilled_over(NOW),
        "count == threshold (180) must NOT trip spillover"
    );
    assert_eq!(f32::from_bits(SPILLOVER_CPU_THRESHOLD), 0.80);
    assert!(
        !state(0, f32::from_bits(SPILLOVER_CPU_THRESHOLD), NOW).is_spilled_over(NOW),
        "cpu == threshold (0.80) must NOT trip spillover"
    );
}

#[test]
fn store_unknown_room_returns_false() {
    let store = SpilloverStore::new();
    assert!(
        !store.is_spilled_over("never-seen", NOW),
        "unknown rooms must default to not spilled over"
    );
}

/// Round-trip through the store: record, snapshot, is_spilled_over.
#[test]
fn store_round_trips_snapshot() {
    let mut store = SpilloverStore::new();
    store.record("room-x", state(200, 0.30, NOW));
    let snap = store.snapshot("room-x").expect("snapshot present");
    assert_eq!(snap.owner_count, 200);
    assert!((value(snap.owner_cpu) - 0.30).abs() < 1e-6);
    assert!(store.is_spilled_over("room-x", NOW));
}

/// Last-writer-wins on repeated records for the same room.
#[test]
fn store_record_overwrites() {
    let mut store = SpilloverStore::new();
    store.record("r", state(200, 0.0, NOW));
    store.record("r", state(5, 0.0, NOW));
    assert!(
        !store.is_spilled_over("r", NOW),
        "second record (count=5) must replace first (count=200)"
    );
    assert_eq!(store.len(), 1);
}

/// `prune_stale` removes only entries older than the horizon and returns the count.
#[test]
fn prune_stale_drops_only_old_entries() {
    let mut store = SpilloverStore::new();
    store.record("fresh", state(10, 0.0, NOW));
    store.record("stale", state(10, 0.0, NOW - 60 * SECOND));
    assert_eq!(store.len(), 2);

    let removed = store.prune_stale(30 * SECOND, NOW);
    assert_eq!(removed, 1, "exactly one stale entry should be pruned");
    assert_eq!(store.len(), 1);
    assert!(store.snapshot("fresh").is_some());
    assert!(store.snapshot("stale").is_none());
}

/// `decode_beacon` gets out what `build_health_beacon_payload` put in, and the room
/// from the subject.
#[test]
fn decode_beacon_round_trips_publisher_payload() {
    let beacon = build_health_beacon_payload("demo", 200, float(0.85), Some(1_700_000_000_000));
    let subject = system_subject("demo");
    let decoded = decode_beacon::<()>(&subject, Ok(PacketType::HealthBeacon), Ok(beacon))
        .expect("decode ok")
        .expect("is a beacon");
    assert_eq!(decoded.0, "demo");
    assert_eq!(decoded.1, 200);
    assert!((value(decoded.2) - 0.85).abs() < 1e-6);
}

/// Other packets on the subject are ignored, whatever is inside.
#[test]
fn decode_beacon_ignores_non_health_beacon_wrappers() {
    let decoded = decode_beacon("room.demo.system", Ok(PacketType::Media), Err("no beacon"))
        .expect("decode ok");
    assert!(
        decoded.is_none(),
        "non-HEALTH_BEACON wrapper must decode to None, not Err"
    );
}

/// What cannot be read is an error.
#[test]
fn decode_beacon_errors_on_garbage() {
    let outside = decode_beacon("room.x.system", Err("outside"), Err("inside"));
    assert_eq!(outside.unwrap_err(), "outside");
    let inside = decode_beacon("room.x.system", Ok(PacketType::HealthBeacon), Err("inside"));
    assert_eq!(inside.unwrap_err(), "inside");
}

#[test]
fn room_id_from_subject_parses_and_rejects() {
    assert_eq!(room_id_from_subject("room.foo_bar.system").as_deref(), Some("foo_bar"));
    assert_eq!(room_id_from_subject("room..system"), None, "empty id");
    assert_eq!(room_id_from_subject("foo_bar.system"), None, "missing prefix");
    assert_eq!(room_id_from_subject("room.foo_bar"), None, "missing .system suffix");
    // A raw id with spaces normalizes to underscores, then survives unchanged.
    let subject = system_subject("foo bar");
    assert_eq!(subject, "room.foo_bar.system");
    assert_eq!(room_id_from_subject(&subject).as_deref(), Some("foo_bar"));
}

/// Callers pass the raw room id; the store is keyed by the normalized one.
#[test]
fn store_lookup_normalizes_spaces() {
    let mut store = SpilloverStore::new();
    store.record("foo_bar", state(200, 0.0, NOW));
    assert!(
        store.is_spilled_over("foo bar", NOW),
        "is_spilled_over must normalize spaces to match the storage key"
    );
    assert!(
        store.snapshot("foo bar").is_some(),
        "snapshot must normalize spaces to match the storage key"
    );
}

#[test]
fn system_time_import_is_live() {
    let _ = SystemTime::now();
}

#[test]
fn record_keeps_the_id_as_it_is() {
    let mut store = SpilloverStore::default();
    store.record("foo bar", state(200, 0.0, NOW));
    assert_eq!(store.len(), 1);
    assert!(store.snapshot("foo bar").is_none());
    assert!(store.snapshot("foo_bar").is_none());
}

#[test]
fn freshness_ends_with_the_window() {
    let s = state(181, 0.0, NOW);
    assert!(s.is_spilled_over(NOW + SPILLOVER_FRESHNESS_WINDOW - 1));
    assert!(!s.is_spilled_over(NOW + SPILLOVER_FRESHNESS_WINDOW));
    // A report from ahead of the clock is fresh.
    assert!(s.is_spilled_over(NOW - 1));
    assert!(!state(0, f32::NAN, NOW).is_spilled_over(NOW));
    assert!(!state(0, -1.0, NOW).is_spilled_over(NOW));
    assert!(state(0, f32::INFINITY, NOW).is_spilled_over(NOW));
}

#[test]
fn pruning_changes_no_answer() {
    let mut store = SpilloverStore::new();
    for i in 0..40u64 {
        store.record(&format!("r{i}"), state(200, 0.0, NOW - i * SECOND));
    }
    let before: Vec<bool> =
        (0..40).map(|i| store.is_spilled_over(&format!("r{i}"), NOW)).collect();
    assert_eq!(store.prune_stale(SPILLOVER_FRESHNESS_WINDOW, NOW), 25);
    let after: Vec<bool> =
        (0..40).map(|i| store.is_spilled_over(&format!("r{i}"), NOW)).collect();
    assert_eq!(before, after);
    assert_eq!(store.len(), 15);
}

#[test]
fn ingest_records_and_prunes() {
    assert_eq!(SPILLOVER_SUBJECT_PATTERN, "room.*.system");
    let mut store = SpilloverStore::new();
    store.record("old", state(1, 0.0, NOW - SPILLOVER_PRUNE_HORIZON));
    store.record("kept", state(1, 0.0, NOW - SPILLOVER_PRUNE_HORIZON + 1));
    ingest_beacon(&mut store, "new", 190, float(0.1), SPILLOVER_PRUNE_HORIZON, NOW);
    assert_eq!(store.len(), 2);
    assert!(store.snapshot("old").is_none());
    assert_eq!(store.snapshot("new"), Some(state(190, 0.1, NOW)));
    assert!(store.is_spilled_over("new", NOW));
}

#[test]
fn beacon_on_a_foreign_subject_tells_nothing() {
    let beacon = || HealthBeaconPacket {
        room_id: "x".to_string(),
        participant_count: 1,
        cpu_load: float(0.0),
        reported_at_ms: 0,
    };
    for subject in ["room.x.video", "", "room..system", "groom.x.system", "room.system"] {
        let decoded = decode_beacon::<()>(subject, Ok(PacketType::HealthBeacon), Ok(beacon()));
        assert_eq!(decoded, Ok(None), "{subject}");
    }
    let decoded = decode_beacon::<()>("room.a.b.system", Ok(PacketType::HealthBeacon), Ok(beacon()));
    assert_eq!(decoded, Ok(Some(("a.b".to_string(), 1, float(0.0)))));
}
