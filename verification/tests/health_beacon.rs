//! Beacons of a room's owner.
use sfu::float32::Float32;
use sfu::health_beacon::{
    beacon_tick, build_health_beacon_payload, normalize_room_id, num_online_cpus, system_subject,
};
use sfu::room_state::RoomState;

fn float(x: f32) -> Float32 {
    Float32 { bits: x.to_bits() }
}

fn value(x: Float32) -> f32 {
    f32::from_bits(x.bits)
}

/// `build_health_beacon_payload` carries room id, count, and cpu.
#[test]
fn payload_round_trips_fields() {
    let beacon = build_health_beacon_payload("demo-room", 7, float(0.42), Some(1_700_000_000_000));
    assert_eq!(beacon.room_id, "demo-room");
    assert_eq!(beacon.participant_count, 7);
    assert!((value(beacon.cpu_load) - 0.42).abs() < 1e-6);
    assert_eq!(beacon.reported_at_ms, 1_700_000_000_000);
}

/// Out-of-range CPU load is clamped to `[0, 1]`.
#[test]
fn payload_clamps_cpu_load() {
    let high = build_health_beacon_payload("r", 0, float(2.5), Some(0));
    assert!((value(high.cpu_load) - 1.0).abs() < 1e-6);

    let low = build_health_beacon_payload("r", 0, float(-0.7), Some(0));
    assert!(value(low.cpu_load).abs() < 1e-6);
}

/// A room with 5 members produces a beacon whose `participant_count` is 5.
#[test]
fn beacon_reports_participant_count_for_five_members() {
    let mut room = RoomState::new("room-5".to_string());
    for sid in 1..=5 {
        room.insert_member(sid, 0, 0);
    }
    assert_eq!(room.member_count(), 5);
    let (subject, beacon) = beacon_tick("room-5", &room, true, float(0.25), Some(1)).unwrap();
    assert_eq!(subject, "room.room-5.system");
    assert_eq!(beacon.participant_count, 5);
    assert_eq!(beacon.room_id, "room-5");
    assert!((value(beacon.cpu_load) - 0.25).abs() < 1e-6);
    assert!(beacon.reported_at_ms > 0, "reported_at_ms should be set");
}

/// Non-owner pods stay quiet.
#[test]
fn non_owner_pod_emits_no_beacons() {
    let mut room = RoomState::new("room-q".to_string());
    room.insert_member(1, 0, 0);
    for _ in 0..3 {
        assert!(beacon_tick("room-q", &room, false, float(0.5), Some(1)).is_none());
    }
}

/// A pod that starts as owner and later loses ownership emits while owner, then stops.
#[test]
fn beacons_pause_when_ownership_lost() {
    let mut room = RoomState::new("room-t".to_string());
    room.insert_member(1, 0, 0);
    room.insert_member(2, 0, 0);
    let published: Vec<bool> = [true, true, false, false]
        .iter()
        .map(|&owner| beacon_tick("room-t", &room, owner, float(0.0), Some(1)).is_some())
        .collect();
    assert_eq!(published, [true, true, false, false]);
}

/// `system_subject` rewrites spaces in the room id.
#[test]
fn system_subject_replaces_spaces_with_underscores() {
    assert_eq!(system_subject("foo bar"), "room.foo_bar.system");
    // Multiple spaces are all rewritten.
    assert_eq!(system_subject("a b c"), "room.a_b_c.system");
    // Rooms without spaces are unchanged.
    assert_eq!(system_subject("plain-room"), "room.plain-room.system");
}

/// A room id with a space publishes its beacon on the normalised subject.
#[test]
fn beacon_publishes_on_normalised_subject() {
    let mut room = RoomState::new("foo bar".to_string());
    room.insert_member(1, 0, 0);
    let (subject, _) = beacon_tick("foo bar", &room, true, float(0.0), Some(1)).unwrap();
    assert_eq!(
        subject, "room.foo_bar.system",
        "subject must normalise the space in 'foo bar' to 'foo_bar'"
    );
}

#[test]
fn clock_before_the_epoch_reports_zero() {
    assert_eq!(build_health_beacon_payload("r", 1, float(0.5), None).reported_at_ms, 0);
}

#[test]
fn load_that_is_no_number_passes() {
    let beacon = build_health_beacon_payload("r", 1, float(f32::NAN), None);
    assert!(value(beacon.cpu_load).is_nan());
    assert_eq!(build_health_beacon_payload("r", 1, float(f32::INFINITY), None).cpu_load, float(1.0));
    assert_eq!(build_health_beacon_payload("r", 1, float(0.3), None).cpu_load, float(0.3));
}

#[test]
fn normalizing_rewrites_spaces_only() {
    assert_eq!(normalize_room_id(" a\tb_c "), "_a\tb_c_");
    assert_eq!(normalize_room_id(""), "");
    assert_eq!(normalize_room_id(&normalize_room_id("x y")), "x_y");
    assert!(!system_subject("x y z").contains(' '));
}

#[test]
fn processors_are_counted_by_line() {
    assert_eq!(num_online_cpus(None), 1);
    assert_eq!(num_online_cpus(Some("".to_string())), 1);
    assert_eq!(num_online_cpus(Some("vendor: x\n processor : 0\n".to_string())), 1);
    let two = "processor : 0\nmodel name: my processor\n\nprocessor\t: 1\n".to_string();
    assert_eq!(num_online_cpus(Some(two)), 2);
    assert_eq!(num_online_cpus(Some("processor\r\nprocessors\nprocesso".to_string())), 2);
}
