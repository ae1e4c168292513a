//! Packet by packet, what is forwarded to whom.
use sfu::float32::Float32;
use sfu::forwarder::{
    packet_type_label, ForwardDecision, Forwarder, RecentT0Set, Verdict, RECENT_T0_CAPACITY,
    RECENT_T0_TTL,
};
use sfu::ids::SessionId;
use sfu::layer_selector::LayerSelector;
use sfu::packet::{
    BandwidthEstimate, MediaPacket, MediaType, PacketType, PacketWrapper, RoutingHeader,
    SubscriptionUpdate,
};
use sfu::room_state::RoomState;
use sfu::speaker::ActiveSpeakerSet;
use sfu::subscription::{AllowSet, LayerPref, SubscriptionStore, MAX_VISIBLE_VIDEO};
use std::collections::HashMap;

const T0: u64 = 1_000_000_000_000;

const REFERENCES_T0: u32 = 1;

/// A forwarder with the counts that its caller keeps.
struct Bench {
    inner: Forwarder,
    forwarded: HashMap<&'static str, u64>,
    dropped: HashMap<&'static str, u64>,
    keyframes: u64,
    decided: u64,
}

fn bench(inner: Forwarder) -> Bench {
    Bench {
        inner,
        forwarded: HashMap::new(),
        dropped: HashMap::new(),
        keyframes: 0,
        decided: 0,
    }
}

impl Bench {
    fn decide(
        &mut self,
        receiver: SessionId,
        packet: &PacketWrapper,
        media: Option<&MediaPacket>,
    ) -> ForwardDecision {
        let verdict = self.inner.judge(receiver, packet, media, T0);
        self.decided += 1;
        match verdict {
            Verdict::Drop(reason) => *self.dropped.entry(reason.label()).or_insert(0) += 1,
            _ => *self.forwarded.entry(packet_type_label(packet)).or_insert(0) += 1,
        }
        if matches!(verdict, Verdict::ForwardKeyframe) {
            self.keyframes += 1;
        }
        verdict.decision()
    }

    fn dropped(&self, reason: &str) -> u64 {
        self.dropped.get(reason).copied().unwrap_or(0)
    }

    fn forwarded(&self, packet_type: &str) -> u64 {
        self.forwarded.get(packet_type).copied().unwrap_or(0)
    }

    fn set_bandwidth(&mut self, receiver: SessionId, downlink_kbps: u32) {
        let est = BandwidthEstimate {
            estimated_downlink_kbps: downlink_kbps,
            estimated_loss_rate: Float32 { bits: 0 },
            rtt_ms: 0,
        };
        let _ = self.inner.room.update_bandwidth_estimate(receiver, &est, T0);
    }
}

fn make_packet(sender_sid: u64) -> PacketWrapper {
    PacketWrapper { packet_type: PacketType::Media, session_id: sender_sid }
}

fn build_media(sender_sid: SessionId, media_type: MediaType) -> (PacketWrapper, MediaPacket) {
    (make_packet(sender_sid), MediaPacket { media_type, routing_header: None })
}

fn build_wired_forwarder(
    room_name: &str,
    members: &[SessionId],
    speakers: ActiveSpeakerSet,
) -> Bench {
    let mut room = RoomState::new(room_name.to_string());
    for &sid in members {
        room.insert_member(sid, 0, T0);
    }
    bench(Forwarder::new(room, SubscriptionStore::new(), speakers, LayerSelector::new()))
}

fn sub_update(pinned: &[SessionId], receive_all_audio: bool) -> SubscriptionUpdate {
    SubscriptionUpdate {
        pinned_sessions: pinned.to_vec(),
        slots: vec![],
        max_video_kbps: 0,
        receive_all_audio,
        receive_all_video: false,
    }
}

fn build_video_ref(
    sender: SessionId,
    temporal: u32,
    picture_id: u64,
    frame_marker: u32,
    is_keyframe: bool,
) -> (PacketWrapper, MediaPacket) {
    let header = RoutingHeader {
        is_keyframe,
        temporal_layer_id: temporal,
        spatial_layer_id: 0,
        picture_id,
        references_t0: frame_marker & REFERENCES_T0 != 0,
    };
    let media = MediaPacket { media_type: MediaType::Video, routing_header: Some(header) };
    (make_packet(sender), media)
}

fn build_video_with_layer(
    sender: SessionId,
    spatial: u32,
    temporal: u32,
    is_keyframe: bool,
) -> (PacketWrapper, MediaPacket) {
    let (packet, mut media) = build_video_ref(sender, temporal, 0, 0, is_keyframe);
    if let Some(header) = media.routing_header.as_mut() {
        header.spatial_layer_id = spatial;
    }
    (packet, media)
}

#[test]
fn passthrough_forwards_to_unrelated_receiver() {
    let mut fwd = bench(Forwarder::with_room_only(RoomState::new("r".to_string()), T0));

    let sender_sid = 1u64;
    let receiver_sid = 2u64;
    let pw = make_packet(sender_sid);

    assert!(matches!(
        fwd.decide(receiver_sid, &pw, None),
        ForwardDecision::Forward
    ));
}

#[test]
fn self_skip_drops_when_receiver_is_sender() {
    let mut fwd = bench(Forwarder::with_room_only(RoomState::new("r".to_string()), T0));

    let sid = 42u64;
    let pw = make_packet(sid);

    match fwd.decide(sid, &pw, None) {
        ForwardDecision::Drop => {}
        ForwardDecision::Forward => panic!("expected Drop for self-skip"),
    }
}

#[test]
fn metrics_forward_counter_increments_on_forward() {
    let mut fwd = bench(Forwarder::with_room_only(RoomState::new("metrics-fwd-room".to_string()), T0));

    let sender_sid = 11u64;
    let receiver_sid = 22u64;
    let pw = make_packet(sender_sid);

    let before = fwd.forwarded("media");
    let latency_before = fwd.decided;

    match fwd.decide(receiver_sid, &pw, None) {
        ForwardDecision::Forward => {}
        ForwardDecision::Drop => panic!("expected Forward for unrelated receiver"),
    }

    let after = fwd.forwarded("media");
    assert!(
        after > before,
        "sfu_forwarded_total{{packet_type=\"media\"}} did not increase: before={before} after={after}"
    );

    let latency_after = fwd.decided;
    assert!(
        latency_after > latency_before,
        "sfu_decide_latency_us sample count did not increase: before={latency_before} after={latency_after}"
    );
}

#[test]
fn metrics_drop_counter_increments_on_self_skip() {
    let mut fwd = bench(Forwarder::with_room_only(RoomState::new("metrics-drop-room".to_string()), T0));

    let sid = 99u64;
    let pw = make_packet(sid);

    let before = fwd.dropped("self_skip");

    match fwd.decide(sid, &pw, None) {
        ForwardDecision::Drop => {}
        ForwardDecision::Forward => panic!("expected Drop for self-skip"),
    }

    let after = fwd.dropped("self_skip");
    assert!(
        after > before,
        "sfu_dropped_total{{reason=\"self_skip\"}} did not increase: before={before} after={after}"
    );
}

#[test]
fn p3_5_default_receiver_gets_full_fanout() {
    let receiver: SessionId = 100;
    let sender_a: SessionId = 200;
    let sender_b: SessionId = 300;
    let mut fwd = build_wired_forwarder(
        "room-default",
        &[receiver, sender_a, sender_b],
        ActiveSpeakerSet::empty(T0),
    );

    let (pw_a_audio, mp_a_audio) = build_media(sender_a, MediaType::Audio);
    assert!(matches!(
        fwd.decide(receiver, &pw_a_audio, Some(&mp_a_audio)),
        ForwardDecision::Forward
    ));

    let (pw_a_video, mp_a_video) = build_media(sender_a, MediaType::Video);
    assert!(matches!(
        fwd.decide(receiver, &pw_a_video, Some(&mp_a_video)),
        ForwardDecision::Forward
    ));

    let (pw_b_audio, mp_b_audio) = build_media(sender_b, MediaType::Audio);
    assert!(matches!(
        fwd.decide(receiver, &pw_b_audio, Some(&mp_b_audio)),
        ForwardDecision::Forward
    ));
    let (pw_b_video, mp_b_video) = build_media(sender_b, MediaType::Video);
    assert!(matches!(
        fwd.decide(receiver, &pw_b_video, Some(&mp_b_video)),
        ForwardDecision::Forward
    ));
}

#[test]
fn p3_5_pinned_video_with_receive_all_audio() {
    let receiver: SessionId = 100;
    let pinned: SessionId = 200;
    let other: SessionId = 300;
    let mut fwd = build_wired_forwarder(
        "room-pin-audio",
        &[receiver, pinned, other],
        ActiveSpeakerSet::empty(T0),
    );

    {
        let members = [receiver, pinned, other].into_iter().collect();
        let s = &mut fwd.inner.subscriptions;
        s.apply_update(receiver, sub_update(&[pinned], true), &members);
    }

    let (pw_pin_video, mp_pin_video) = build_media(pinned, MediaType::Video);
    assert!(matches!(
        fwd.decide(receiver, &pw_pin_video, Some(&mp_pin_video)),
        ForwardDecision::Forward
    ));

    let before = fwd.dropped("unsubscribed");
    let (pw_other_video, mp_other_video) = build_media(other, MediaType::Video);
    assert!(matches!(
        fwd.decide(receiver, &pw_other_video, Some(&mp_other_video)),
        ForwardDecision::Drop
    ));
    let after = fwd.dropped("unsubscribed");
    assert!(
        after > before,
        "sfu_dropped_total{{reason=\"unsubscribed\"}} must increment on unsubscribed VIDEO drop: before={before} after={after}"
    );

    let (pw_other_audio, mp_other_audio) = build_media(other, MediaType::Audio);
    assert!(matches!(
        fwd.decide(receiver, &pw_other_audio, Some(&mp_other_audio)),
        ForwardDecision::Forward
    ));
}

#[test]
fn p3_5_restrictive_subscription_drops_unsubscribed() {
    let receiver: SessionId = 100;
    let sender: SessionId = 200;
    let mut fwd = build_wired_forwarder(
        "room-restrictive",
        &[receiver, sender],
        ActiveSpeakerSet::empty(T0),
    );

    {
        let members = [receiver, sender].into_iter().collect();
        let s = &mut fwd.inner.subscriptions;
        s.apply_update(receiver, sub_update(&[], false), &members);
    }

    let (pw_video, mp_video) = build_media(sender, MediaType::Video);
    assert!(matches!(
        fwd.decide(receiver, &pw_video, Some(&mp_video)),
        ForwardDecision::Drop
    ));
    let (pw_audio, mp_audio) = build_media(sender, MediaType::Audio);
    assert!(matches!(
        fwd.decide(receiver, &pw_audio, Some(&mp_audio)),
        ForwardDecision::Drop
    ));
}

#[test]
fn p3_5_active_speaker_is_admitted_without_explicit_pin() {
    let receiver: SessionId = 100;
    let speaker: SessionId = 200;
    let stranger: SessionId = 300;

    let speakers_snap = ActiveSpeakerSet {
        top: vec![speaker],
        generation: 1,
        ..ActiveSpeakerSet::empty(T0)
    };
    let mut fwd = build_wired_forwarder(
        "room-speaker",
        &[receiver, speaker, stranger],
        speakers_snap,
    );

    {
        let members = [receiver, speaker, stranger].into_iter().collect();
        let s = &mut fwd.inner.subscriptions;
        s.apply_update(receiver, sub_update(&[], false), &members);
    }

    let (pw_speaker_video, mp_speaker_video) = build_media(speaker, MediaType::Video);
    assert!(
        matches!(
            fwd.decide(receiver, &pw_speaker_video, Some(&mp_speaker_video)),
            ForwardDecision::Forward
        ),
        "active speaker's MEDIA must be admitted even without an explicit pin"
    );

    let (pw_stranger_video, mp_stranger_video) = build_media(stranger, MediaType::Video);
    assert!(matches!(
        fwd.decide(receiver, &pw_stranger_video, Some(&mp_stranger_video)),
        ForwardDecision::Drop
    ));
}

#[test]
fn p4_7_layer_drop_three_receivers_distinct_budgets() {
    let sender: SessionId = 200;
    let r_tight: SessionId = 100;
    let r_mid: SessionId = 101;
    let r_fat: SessionId = 102;

    let mut fwd = build_wired_forwarder("room-budgets", &[sender, r_tight, r_mid, r_fat], ActiveSpeakerSet::empty(T0));
    {
        let members: std::collections::HashSet<SessionId> =
            [sender, r_tight, r_mid, r_fat].into_iter().collect();
        let s = &mut fwd.inner.subscriptions;
        s.apply_update(r_tight, sub_update(&[sender], true), &members);
        s.apply_update(r_mid, sub_update(&[sender], true), &members);
        s.apply_update(r_fat, sub_update(&[sender], true), &members);
    }

    fwd.set_bandwidth(r_tight, 200);
    fwd.set_bandwidth(r_mid, 500);
    fwd.set_bandwidth(r_fat, 2000);

    let (pw_t0, mp_t0) = build_video_with_layer(sender, 0, 0, false);
    let (pw_t1, mp_t1) = build_video_with_layer(sender, 0, 1, false);
    let (pw_t2, mp_t2) = build_video_with_layer(sender, 0, 2, false);

    assert!(
        matches!(
            fwd.decide(r_tight, &pw_t0, Some(&mp_t0)),
            ForwardDecision::Forward
        ),
        "T0 base must forward to tight receiver"
    );
    let before_lb = fwd.dropped("layer_budget");
    assert!(
        matches!(
            fwd.decide(r_tight, &pw_t1, Some(&mp_t1)),
            ForwardDecision::Drop
        ),
        "T1 must drop for tight receiver (170 kbps budget)"
    );
    let after_lb = fwd.dropped("layer_budget");
    assert!(
        after_lb > before_lb,
        "sfu_dropped_total{{reason=\"layer_budget\"}} must increment on T1 drop"
    );
    assert!(
        matches!(
            fwd.decide(r_tight, &pw_t2, Some(&mp_t2)),
            ForwardDecision::Drop
        ),
        "T2 must drop for tight receiver"
    );

    assert!(matches!(
        fwd.decide(r_mid, &pw_t0, Some(&mp_t0)),
        ForwardDecision::Forward
    ));
    assert!(matches!(
        fwd.decide(r_mid, &pw_t1, Some(&mp_t1)),
        ForwardDecision::Forward
    ));
    assert!(
        matches!(
            fwd.decide(r_mid, &pw_t2, Some(&mp_t2)),
            ForwardDecision::Drop
        ),
        "T2 must drop for mid receiver (425 kbps budget, T0+T1=384 fits but cum-T2=896 does not)"
    );

    for (pw, mp) in [(&pw_t0, &mp_t0), (&pw_t1, &mp_t1), (&pw_t2, &mp_t2)] {
        assert!(
            matches!(fwd.decide(r_fat, pw, Some(mp)), ForwardDecision::Forward),
            "fat receiver (1700 kbps budget) must forward every temporal layer"
        );
    }

    let (pw_kf_base, mp_kf_base) = build_video_with_layer(sender, 0, 0, true);
    assert!(
        matches!(
            fwd.decide(r_tight, &pw_kf_base, Some(&mp_kf_base)),
            ForwardDecision::Forward
        ),
        "base-layer (T0+S0) keyframes ALWAYS pass through regardless of layer budget"
    );
}

#[test]
fn p4_7_no_bandwidth_estimate_disables_layer_drop() {
    let sender: SessionId = 200;
    let receiver: SessionId = 100;

    let mut fwd = build_wired_forwarder("room-no-bw", &[receiver, sender], ActiveSpeakerSet::empty(T0));

    let (pw_t2, mp_t2) = build_video_with_layer(sender, 0, 2, false);
    assert!(
        matches!(
            fwd.decide(receiver, &pw_t2, Some(&mp_t2)),
            ForwardDecision::Forward
        ),
        "without a bandwidth estimate the layer-drop is skipped"
    );
}

#[test]
fn p4_7_legacy_no_routing_header_forwards() {
    let sender: SessionId = 200;
    let receiver: SessionId = 100;

    let mut fwd = build_wired_forwarder("room-legacy", &[sender, receiver], ActiveSpeakerSet::empty(T0));
    fwd.set_bandwidth(receiver, 200);

    let (pw, mp) = build_media(sender, MediaType::Video);
    assert!(matches!(
        fwd.decide(receiver, &pw, Some(&mp)),
        ForwardDecision::Forward
    ));
}

#[test]
fn p4_8_base_keyframe_forwards_below_t0_budget() {
    let sender: SessionId = 200;
    let receiver: SessionId = 100;

    let mut fwd = build_wired_forwarder("room-base-kf", &[sender, receiver], ActiveSpeakerSet::empty(T0));
    {
        let members = [sender, receiver].into_iter().collect();
        let s = &mut fwd.inner.subscriptions;
        s.apply_update(receiver, sub_update(&[sender], true), &members);
    }
    fwd.set_bandwidth(receiver, 10);

    let before = fwd.keyframes;
    let (pw_kf_base, mp_kf_base) = build_video_with_layer(sender, 0, 0, true);
    assert!(
        matches!(
            fwd.decide(receiver, &pw_kf_base, Some(&mp_kf_base)),
            ForwardDecision::Forward
        ),
        "T0+S0 keyframe must forward even at 10kbps budget"
    );
    let after = fwd.keyframes;
    assert!(
        after > before,
        "sfu_keyframe_forwarded_total must increment on base-layer keyframe forward (before={before}, after={after})"
    );

    let (pw_t0_delta, mp_t0_delta) = build_video_with_layer(sender, 0, 0, false);
    assert!(
        matches!(
            fwd.decide(receiver, &pw_t0_delta, Some(&mp_t0_delta)),
            ForwardDecision::Drop
        ),
        "T0 delta frame must drop at 10kbps budget (confirms the carve-out is keyframe-specific)"
    );
}

#[test]
fn p4_8_higher_layer_keyframe_obeys_budget() {
    let sender: SessionId = 200;
    let receiver: SessionId = 100;

    let mut fwd = build_wired_forwarder("room-higher-kf", &[sender, receiver], ActiveSpeakerSet::empty(T0));
    {
        let members = [sender, receiver].into_iter().collect();
        let s = &mut fwd.inner.subscriptions;
        s.apply_update(receiver, sub_update(&[sender], true), &members);
    }
    fwd.set_bandwidth(receiver, 200);

    let before_kf = fwd.keyframes;
    let before_lb = fwd.dropped("layer_budget");
    let (pw_kf_t2, mp_kf_t2) = build_video_with_layer(sender, 0, 2, true);
    assert!(
        matches!(
            fwd.decide(receiver, &pw_kf_t2, Some(&mp_kf_t2)),
            ForwardDecision::Drop
        ),
        "T2 keyframe must drop at tight budget: only T0+S0 keyframes always pass"
    );
    let after_kf = fwd.keyframes;
    let after_lb = fwd.dropped("layer_budget");
    assert_eq!(
        after_kf, before_kf,
        "sfu_keyframe_forwarded_total counts only T0+S0 keyframes — must not increment for T2 keyframe"
    );
    assert!(
        after_lb > before_lb,
        "sfu_dropped_total{{reason=\"layer_budget\"}} must increment on higher-layer keyframe drop"
    );
}

#[test]
fn p4_9_t1_dropped_when_t0_not_forwarded() {
    let sender: SessionId = 200;
    let receiver: SessionId = 100;

    let mut fwd = build_wired_forwarder(
        "room-references-t0",
        &[receiver, sender],
        ActiveSpeakerSet::empty(T0),
    );

    let before = fwd.dropped("reference_miss");
    let (pw_t1_orphan, mp_t1_orphan) = build_video_ref(sender, 1, 42, REFERENCES_T0, false);
    assert!(
        matches!(
            fwd.decide(receiver, &pw_t1_orphan, Some(&mp_t1_orphan)),
            ForwardDecision::Drop
        ),
        "T1 referencing an unseen T0 must drop"
    );
    let after = fwd.dropped("reference_miss");
    assert!(
        after > before,
        "sfu_dropped_total{{reason=\"reference_miss\"}} must increment on the orphan-T1 drop: before={before} after={after}"
    );

    let (pw_t0, mp_t0) = build_video_ref(sender, 0, 100, 0, false);
    assert!(
        matches!(
            fwd.decide(receiver, &pw_t0, Some(&mp_t0)),
            ForwardDecision::Forward
        ),
        "T0 delta must forward when AllowSet admits the sender"
    );

    let (pw_t1_ok, mp_t1_ok) = build_video_ref(sender, 1, 100, REFERENCES_T0, false);
    assert!(
        matches!(
            fwd.decide(receiver, &pw_t1_ok, Some(&mp_t1_ok)),
            ForwardDecision::Forward
        ),
        "T1 referencing a recorded T0 must forward"
    );

    let (pw_t1_miss, mp_t1_miss) = build_video_ref(sender, 1, 999, REFERENCES_T0, false);
    assert!(
        matches!(
            fwd.decide(receiver, &pw_t1_miss, Some(&mp_t1_miss)),
            ForwardDecision::Drop
        ),
        "T1 referencing an unseen T0 picture_id must drop even after other T0s were recorded"
    );

    let mp_kf = MediaPacket {
        media_type: MediaType::Video,
        routing_header: Some(RoutingHeader {
            is_keyframe: true,
            spatial_layer_id: 1,
            temporal_layer_id: 0,
            picture_id: 7777,
            references_t0: true,
        }),
    };
    let pw_kf = make_packet(sender);
    assert!(
        matches!(
            fwd.decide(receiver, &pw_kf, Some(&mp_kf)),
            ForwardDecision::Forward
        ),
        "keyframes must bypass the reference-miss check"
    );
}

#[test]
fn p4_9_t2_also_requires_recent_t0() {
    let sender: SessionId = 200;
    let receiver: SessionId = 100;

    let mut fwd = build_wired_forwarder(
        "room-t2-ref",
        &[receiver, sender],
        ActiveSpeakerSet::empty(T0),
    );

    let (pw_t2_orphan, mp_t2_orphan) = build_video_ref(sender, 2, 11, REFERENCES_T0, false);
    assert!(matches!(
        fwd.decide(receiver, &pw_t2_orphan, Some(&mp_t2_orphan)),
        ForwardDecision::Drop
    ));

    let (pw_t0, mp_t0) = build_video_ref(sender, 0, 11, 0, false);
    assert!(matches!(
        fwd.decide(receiver, &pw_t0, Some(&mp_t0)),
        ForwardDecision::Forward
    ));
    let (pw_t2_ok, mp_t2_ok) = build_video_ref(sender, 2, 11, REFERENCES_T0, false);
    assert!(matches!(
        fwd.decide(receiver, &pw_t2_ok, Some(&mp_t2_ok)),
        ForwardDecision::Forward
    ));
}

#[test]
fn p4_9_t1_without_references_bit_is_passthrough() {
    let sender: SessionId = 200;
    let receiver: SessionId = 100;

    let mut fwd = build_wired_forwarder(
        "room-no-ref-bit",
        &[receiver, sender],
        ActiveSpeakerSet::empty(T0),
    );

    let (pw, mp) = build_video_ref(sender, 1, 1234, 0, false);
    assert!(matches!(
        fwd.decide(receiver, &pw, Some(&mp)),
        ForwardDecision::Forward
    ));
}

#[test]
fn p4_9_legacy_no_routing_header_passthrough() {
    let sender: SessionId = 200;
    let receiver: SessionId = 100;

    let mut fwd = build_wired_forwarder(
        "room-legacy",
        &[receiver, sender],
        ActiveSpeakerSet::empty(T0),
    );

    let (pw, mp) = build_media(sender, MediaType::Video);
    assert!(matches!(
        fwd.decide(receiver, &pw, Some(&mp)),
        ForwardDecision::Forward
    ));
}

#[test]
fn vc_78q_prune_session_clears_recent_t0_for_departed_sid() {
    let a: SessionId = 100;
    let b: SessionId = 200;
    let c: SessionId = 300;

    let mut fwd = build_wired_forwarder("room-prune", &[a, b, c], ActiveSpeakerSet::empty(T0));

    let mut picture_id: u64 = 1;
    for &rcv in &[a, b, c] {
        for &snd in &[a, b, c] {
            if rcv == snd {
                continue;
            }
            let (pw, mp) = build_video_ref(snd, 0, picture_id, 0, false);
            assert!(
                matches!(fwd.decide(rcv, &pw, Some(&mp)), ForwardDecision::Forward),
                "T0 for (rcv={rcv}, snd={snd}) must forward"
            );
            picture_id += 1;
        }
    }
    assert_eq!(fwd.inner.recent_t0_pair_count(), 6);

    fwd.inner.prune_session(b);
    assert_eq!(fwd.inner.recent_t0_pair_count(), 2);
    assert!(fwd.inner.recent_t0_contains_pair(a, c));
    assert!(fwd.inner.recent_t0_contains_pair(c, a));
    assert!(!fwd.inner.recent_t0_contains_pair(a, b));
    assert!(!fwd.inner.recent_t0_contains_pair(b, a));
    assert!(!fwd.inner.recent_t0_contains_pair(b, c));
    assert!(!fwd.inner.recent_t0_contains_pair(c, b));

    fwd.inner.prune_session(b);
    assert_eq!(fwd.inner.recent_t0_pair_count(), 2);

    fwd.inner.prune_session(a);
    fwd.inner.prune_session(c);
    assert_eq!(fwd.inner.recent_t0_pair_count(), 0);
}

#[test]
fn vc_78q_prune_session_clears_layer_selector_state() {
    let receiver: SessionId = 100;
    let sender: SessionId = 200;

    let mut fwd = build_wired_forwarder("room-ls", &[receiver, sender], ActiveSpeakerSet::empty(T0));

    let mut allow = AllowSet::new();
    allow.video.insert(sender, LayerPref::default());
    allow.audio.insert(sender);
    fwd.inner
        .layer_selector
        .recompute_for_receiver(receiver, &allow, &[sender], 2000, 0, T0);
    assert!(
        fwd.inner.layer_selector().last_selection_for(receiver).is_some(),
        "precondition: receiver should have a cached selection after recompute"
    );

    fwd.inner.prune_session(receiver);
    assert!(
        fwd.inner.layer_selector().last_selection_for(receiver).is_none(),
        "prune_session must drop the receiver's cached LayerSelector state"
    );
}

#[test]
fn vc_72a_co_arrival_no_update_admits_non_member_publisher() {
    let listener: SessionId = 1;
    let publisher: SessionId = 2;
    let mut fwd = build_wired_forwarder("room-no-update", &[listener], ActiveSpeakerSet::empty(T0));
    fwd.set_bandwidth(listener, 2000);

    let (pw_audio, mp_audio) = build_media(publisher, MediaType::Audio);
    assert!(
        matches!(
            fwd.decide(listener, &pw_audio, Some(&mp_audio)),
            ForwardDecision::Forward
        ),
        "no-update listener must hear a non-member publisher's audio (cross-pod co-arrival)"
    );

    let (pw_kf, mp_kf) = build_video_with_layer(publisher, 0, 0, true);
    assert!(
        matches!(
            fwd.decide(listener, &pw_kf, Some(&mp_kf)),
            ForwardDecision::Forward
        ),
        "no-update listener must see a non-member publisher's base keyframe"
    );

    let (pw_t1, mp_t1) = build_video_with_layer(publisher, 0, 1, false);
    assert!(
        matches!(
            fwd.decide(listener, &pw_t1, Some(&mp_t1)),
            ForwardDecision::Forward
        ),
        "no-update listener must receive a non-member publisher's NON-keyframe \
         video (T1) — not just periodic keyframes (video half)"
    );
}

#[test]
fn vc_72a_co_arrival_receive_all_admits_non_member_publisher() {
    let listener: SessionId = 100;
    let publisher: SessionId = 200;
    let mut fwd = build_wired_forwarder(
        "room-receive-all",
        &[listener],
        ActiveSpeakerSet::empty(T0),
    );
    fwd.set_bandwidth(listener, 2000);

    {
        let members = [listener].into_iter().collect();
        let s = &mut fwd.inner.subscriptions;
        let mut u = sub_update(&[], false);
        u.receive_all_audio = true;
        u.receive_all_video = true;
        s.apply_update(listener, u, &members);
    }

    let (pw_audio, mp_audio) = build_media(publisher, MediaType::Audio);
    assert!(
        matches!(
            fwd.decide(listener, &pw_audio, Some(&mp_audio)),
            ForwardDecision::Forward
        ),
        "receive_all_audio listener must hear a non-member publisher"
    );
    let (pw_t1, mp_t1) = build_video_with_layer(publisher, 0, 1, false);
    assert!(
        matches!(
            fwd.decide(listener, &pw_t1, Some(&mp_t1)),
            ForwardDecision::Forward
        ),
        "receive_all_video listener must see a non-member publisher's NON-keyframe video"
    );
}

#[test]
fn vc_72a_non_member_video_obeys_tight_layer_budget() {
    let listener: SessionId = 1;
    let publisher: SessionId = 2;
    let mut fwd = build_wired_forwarder(
        "room-tight-budget",
        &[listener],
        ActiveSpeakerSet::empty(T0),
    );
    fwd.set_bandwidth(listener, 200);

    let (pw_t0, mp_t0) = build_video_with_layer(publisher, 0, 0, false);
    assert!(
        matches!(
            fwd.decide(listener, &pw_t0, Some(&mp_t0)),
            ForwardDecision::Forward
        ),
        "non-member T0 must fit a 200 kbps budget"
    );

    let before = fwd.dropped("layer_budget");
    let (pw_t1, mp_t1) = build_video_with_layer(publisher, 0, 1, false);
    assert!(
        matches!(
            fwd.decide(listener, &pw_t1, Some(&mp_t1)),
            ForwardDecision::Drop
        ),
        "non-member T1 must be dropped at a 200 kbps budget (T0 only)"
    );
    let after = fwd.dropped("layer_budget");
    assert!(
        after > before,
        "dropped non-member T1 must increment sfu_dropped_total{{layer_budget}}"
    );
}

#[test]
fn vc_72a_non_member_video_respects_max_visible_cap() {
    let listener: SessionId = 1;
    let local_pubs: Vec<SessionId> = (10..16).collect();
    let mut members = vec![listener];
    members.extend(&local_pubs);
    let mut fwd = build_wired_forwarder("room-cap", &members, ActiveSpeakerSet::empty(T0));
    fwd.set_bandwidth(listener, 100_000);

    assert_eq!(local_pubs.len(), MAX_VISIBLE_VIDEO as usize);

    let (pw_member, mp_member) = build_video_with_layer(local_pubs[0], 0, 1, false);
    assert!(
        matches!(
            fwd.decide(listener, &pw_member, Some(&mp_member)),
            ForwardDecision::Forward
        ),
        "a capped local member's video must still forward"
    );

    let non_member: SessionId = 999;
    let before = fwd.dropped("unsubscribed");
    let (pw_extra, mp_extra) = build_video_with_layer(non_member, 0, 1, false);
    assert!(
        matches!(
            fwd.decide(listener, &pw_extra, Some(&mp_extra)),
            ForwardDecision::Drop
        ),
        "a non-member video admit beyond MAX_VISIBLE_VIDEO must be dropped"
    );
    let after = fwd.dropped("unsubscribed");
    assert!(
        after > before,
        "the capped-out non-member video drop must count as unsubscribed"
    );

    let (pw_audio, mp_audio) = build_media(non_member, MediaType::Audio);
    assert!(
        matches!(
            fwd.decide(listener, &pw_audio, Some(&mp_audio)),
            ForwardDecision::Forward
        ),
        "non-member audio is not subject to the video cap"
    );
}

#[test]
fn vc_72a_restrictive_subscription_still_drops_non_member() {
    let listener: SessionId = 100;
    let publisher: SessionId = 200;
    let mut fwd = build_wired_forwarder(
        "room-restrictive",
        &[listener, publisher],
        ActiveSpeakerSet::empty(T0),
    );

    {
        let members = [listener, publisher].into_iter().collect();
        let s = &mut fwd.inner.subscriptions;
        s.apply_update(listener, sub_update(&[], false), &members);
    }

    let (pw_audio, mp_audio) = build_media(publisher, MediaType::Audio);
    assert!(
        matches!(
            fwd.decide(listener, &pw_audio, Some(&mp_audio)),
            ForwardDecision::Drop
        ),
        "restrictive listener must NOT receive an unsubscribed sender's audio"
    );
    let (pw_video, mp_video) = build_media(publisher, MediaType::Video);
    assert!(
        matches!(
            fwd.decide(listener, &pw_video, Some(&mp_video)),
            ForwardDecision::Drop
        ),
        "restrictive listener must NOT receive an unsubscribed sender's video"
    );
}

#[test]
fn vc_72a_listener_first_then_publisher_joins_local() {
    let listener: SessionId = 1;
    let publisher: SessionId = 2;
    let mut fwd = build_wired_forwarder("room-order", &[listener], ActiveSpeakerSet::empty(T0));

    fwd.inner.room.insert_member(publisher, 0, T0);

    let (pw_audio, mp_audio) = build_media(publisher, MediaType::Audio);
    assert!(
        matches!(
            fwd.decide(listener, &pw_audio, Some(&mp_audio)),
            ForwardDecision::Forward
        ),
        "listener-first then publisher-joins: first audio packet must forward"
    );
}

#[test]
fn every_receiver_gets_every_other_senders_packets() {
    let members: Vec<SessionId> = (0..16).collect();
    let mut fwd = build_wired_forwarder("room-shared", &members, ActiveSpeakerSet::empty(T0));
    for receiver in 0..100u64 {
        let pw = make_packet(receiver.wrapping_add(1));
        assert!(matches!(fwd.decide(receiver, &pw, None), ForwardDecision::Forward));
    }
}

#[test]
fn pictures_expire() {
    let (sender, receiver) = (200, 100);
    let mut fwd =
        build_wired_forwarder("room-ttl", &[receiver, sender], ActiveSpeakerSet::empty(T0)).inner;
    let (pw_t0, mp_t0) = build_video_ref(sender, 0, 5, 0, false);
    let (pw_t1, mp_t1) = build_video_ref(sender, 1, 5, REFERENCES_T0, false);
    assert!(matches!(fwd.decide(receiver, &pw_t0, Some(&mp_t0), T0), ForwardDecision::Forward));
    assert!(matches!(
        fwd.decide(receiver, &pw_t1, Some(&mp_t1), T0 + RECENT_T0_TTL - 1),
        ForwardDecision::Forward
    ));
    assert!(matches!(
        fwd.decide(receiver, &pw_t1, Some(&mp_t1), T0 + RECENT_T0_TTL + 1),
        ForwardDecision::Drop
    ));
}

#[test]
fn remembered_pictures_are_bounded() {
    let mut set = RecentT0Set::new();
    for picture in 0..100u64 {
        set.insert(picture, T0 + picture);
    }
    let kept = (0..100u64).filter(|&p| set.contains(p, T0 + 100)).count();
    assert_eq!(kept, RECENT_T0_CAPACITY);
    assert!(!set.contains(35, T0 + 100));
    assert!(set.contains(36, T0 + 100));
}

#[test]
fn one_receivers_pictures_do_not_serve_another() {
    let mut fwd =
        build_wired_forwarder("room-isolated", &[1, 2, 3], ActiveSpeakerSet::empty(T0));
    let (pw_t0, mp_t0) = build_video_ref(3, 0, 9, 0, false);
    let (pw_t1, mp_t1) = build_video_ref(3, 1, 9, REFERENCES_T0, false);
    assert!(matches!(fwd.decide(1, &pw_t0, Some(&mp_t0)), ForwardDecision::Forward));
    assert!(matches!(fwd.decide(2, &pw_t1, Some(&mp_t1)), ForwardDecision::Drop));
    assert_eq!(fwd.dropped("reference_miss"), 1);
    assert!(matches!(fwd.decide(1, &pw_t1, Some(&mp_t1)), ForwardDecision::Forward));
}

#[test]
fn signalling_passes_whatever_is_subscribed() {
    let mut fwd = build_wired_forwarder("room-signals", &[1, 2], ActiveSpeakerSet::empty(T0));
    let members = [1, 2].into_iter().collect();
    fwd.inner.subscriptions.apply_update(1, sub_update(&[], false), &members);
    for packet_type in [PacketType::Meeting, PacketType::Congestion, PacketType::SpeakerUpdate] {
        let pw = PacketWrapper { packet_type, session_id: 2 };
        assert!(matches!(fwd.decide(1, &pw, None), ForwardDecision::Forward));
    }
}
