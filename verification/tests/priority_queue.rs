//! Outbound queues by class.
use bytes::Bytes;
use sfu::packet::{MediaType, PacketType, PacketWrapper, RoutingHeader};
use sfu::priority_queue::{
    classify_outbound, Class, DropPolicy, PriorityReceiver, PrioritySender, RecvPoll, SendError,
    SendOutcome, FAIRNESS_QUANTUM,
};
use std::collections::HashMap;

fn ready(poll: RecvPoll) -> Bytes {
    match poll {
        RecvPoll::Ready(bytes) => bytes,
        other => panic!("packet must be available, got {other:?}"),
    }
}

#[test]
fn class_capacity_matches_table() {
    assert_eq!(Class::P0Control.capacity(), 32);
    assert_eq!(Class::P1Audio.capacity(), 128);
    assert_eq!(Class::P2Keyframe.capacity(), 128);
    assert_eq!(Class::P3VideoBase.capacity(), 256);
    assert_eq!(Class::P4Enhancement.capacity(), 256);
}

#[test]
fn class_drop_policy_matches_table() {
    assert_eq!(Class::P0Control.drop_policy(), DropPolicy::NeverDrop);
    assert_eq!(Class::P1Audio.drop_policy(), DropPolicy::TailDropOldest);
    assert_eq!(Class::P2Keyframe.drop_policy(), DropPolicy::TailDropOldest);
    assert_eq!(Class::P3VideoBase.drop_policy(), DropPolicy::TailDropOldest);
    assert_eq!(
        Class::P4Enhancement.drop_policy(),
        DropPolicy::HeadDropOldest
    );
}

#[test]
fn send_to_non_full_class_returns_sent() {
    let (sender, mut channels) = PrioritySender::new();
    let outcome = sender.send(&mut channels, Class::P1Audio, Bytes::from_static(b"hello"));
    assert_eq!(outcome, SendOutcome::Sent);
}

#[test]
fn tail_drop_oldest_evicts_head_and_keeps_new() {
    let (sender, mut channels) = PrioritySender::new();
    let cap = Class::P1Audio.capacity();

    for i in 0..cap {
        let outcome = sender.send(&mut channels, Class::P1Audio, Bytes::from(format!("{i}").into_bytes()));
        assert_eq!(outcome, SendOutcome::Sent, "fill #{i} should succeed");
    }

    let outcome = sender.send(&mut channels, Class::P1Audio, Bytes::from_static(b"new"));
    match outcome {
        SendOutcome::Dropped(Class::P1Audio, reason) => {
            assert_eq!(reason, "tail_drop_oldest");
        }
        other => panic!("expected Dropped(P1Audio, tail_drop_oldest), got {other:?}"),
    }

    let mut drained = Vec::with_capacity(cap);
    while let Some(b) = channels.p1_audio.try_recv() {
        drained.push(b);
    }
    assert_eq!(drained.len(), cap, "queue should still hold {cap} items");
    assert_eq!(&drained[0][..], b"1");
    assert_eq!(&drained[drained.len() - 1][..], b"new");
}

#[test]
fn metric_label_matches_debug_for_all_classes() {
    for class in Class::all() {
        assert_eq!(
            class.metric_label(),
            format!("{class:?}"),
            "metric_label() must match Debug for {class:?}"
        );
    }
}

#[test]
fn never_drop_refuses_when_full() {
    let (sender, mut channels) = PrioritySender::new();
    let cap = Class::P0Control.capacity();

    for i in 0..cap {
        let outcome = sender.send(&mut channels, Class::P0Control, Bytes::from(format!("{i}").into_bytes()));
        assert_eq!(outcome, SendOutcome::Sent, "fill #{i} should succeed");
    }

    let outcome = sender.send(&mut channels, Class::P0Control, Bytes::from_static(b"overflow"));
    assert_eq!(outcome, SendOutcome::Refused(SendError));
}

#[test]
fn head_drop_oldest_drops_new_when_full() {
    let (sender, mut channels) = PrioritySender::new();
    let cap = Class::P4Enhancement.capacity();

    for i in 0..cap {
        let outcome = sender.send(&mut channels, Class::P4Enhancement,
            Bytes::from(format!("{i}").into_bytes()),
        );
        assert_eq!(outcome, SendOutcome::Sent, "fill #{i} should succeed");
    }

    let outcome = sender.send(&mut channels, Class::P4Enhancement, Bytes::from_static(b"new"));
    match outcome {
        SendOutcome::Dropped(Class::P4Enhancement, reason) => {
            assert_eq!(reason, "head_drop_new");
        }
        other => panic!("expected Dropped(P4Enhancement, head_drop_new), got {other:?}"),
    }

    let mut drained = Vec::with_capacity(cap);
    while let Some(b) = channels.p4_enhancement.try_recv() {
        drained.push(b);
    }
    assert_eq!(drained.len(), cap);
    for (i, b) in drained.iter().enumerate() {
        assert_eq!(&b[..], format!("{i}").as_bytes());
    }
    assert!(
        drained.iter().all(|b| &b[..] != b"new"),
        "head_drop policy must reject the new entry"
    );
}

#[test]
fn recv_returns_entries_in_fifo_order() {
    let (sender, mut channels) = PrioritySender::new();
    assert_eq!(
        sender.send(&mut channels, Class::P2Keyframe, Bytes::from_static(b"a")),
        SendOutcome::Sent
    );
    assert_eq!(
        sender.send(&mut channels, Class::P2Keyframe, Bytes::from_static(b"b")),
        SendOutcome::Sent
    );
    assert_eq!(&ready(channels.p2_keyframe.recv())[..], b"a");
    assert_eq!(&ready(channels.p2_keyframe.recv())[..], b"b");
}

#[test]
fn recv_returns_none_after_all_senders_drop() {
    let (sender, mut channels) = PrioritySender::new();
    sender.release(&mut channels);
    assert_eq!(channels.p1_audio.recv(), RecvPoll::Closed);
}

fn wrapper_with(pt: PacketType) -> PacketWrapper {
    PacketWrapper { packet_type: pt, session_id: 7 }
}

fn routing_header(is_keyframe: bool, t: u32, s: u32) -> RoutingHeader {
    RoutingHeader {
        is_keyframe,
        temporal_layer_id: t,
        spatial_layer_id: s,
        picture_id: 0,
        references_t0: false,
    }
}

#[test]
fn classify_outbound_congestion_is_p0_control() {
    let w = wrapper_with(PacketType::Congestion);
    assert_eq!(classify_outbound(&w, None, None), Class::P0Control);
}

#[test]
fn classify_outbound_heartbeat_is_p0_control() {
    let w = wrapper_with(PacketType::Media);
    assert_eq!(
        classify_outbound(&w, Some(MediaType::Heartbeat), None),
        Class::P0Control
    );
}

#[test]
fn classify_outbound_rtt_is_p0_control() {
    let w = wrapper_with(PacketType::Media);
    assert_eq!(
        classify_outbound(&w, Some(MediaType::Rtt), None),
        Class::P0Control
    );
}

#[test]
fn classify_outbound_session_assigned_is_p0_control() {
    let w = wrapper_with(PacketType::SessionAssigned);
    assert_eq!(classify_outbound(&w, None, None), Class::P0Control);
}

#[test]
fn classify_outbound_speaker_update_is_p0_control() {
    let w = wrapper_with(PacketType::SpeakerUpdate);
    assert_eq!(classify_outbound(&w, None, None), Class::P0Control);
}

#[test]
fn classify_outbound_meeting_is_p0_control() {
    let w = wrapper_with(PacketType::Meeting);
    assert_eq!(classify_outbound(&w, None, None), Class::P0Control);
}

#[test]
fn classify_outbound_audio_is_p1_audio() {
    let w = wrapper_with(PacketType::Media);
    assert_eq!(
        classify_outbound(&w, Some(MediaType::Audio), None),
        Class::P1Audio
    );
}

#[test]
fn classify_outbound_media_keyframe_base_layer_is_p2_keyframe() {
    let w = wrapper_with(PacketType::Media);
    let rh = routing_header(true, 0, 0);
    assert_eq!(
        classify_outbound(&w, Some(MediaType::Video), Some(&rh)),
        Class::P2Keyframe
    );
}

#[test]
fn classify_outbound_media_base_layer_non_keyframe_is_p3_video_base() {
    let w = wrapper_with(PacketType::Media);
    let rh = routing_header(false, 0, 0);
    assert_eq!(
        classify_outbound(&w, Some(MediaType::Video), Some(&rh)),
        Class::P3VideoBase
    );
}

#[test]
fn classify_outbound_media_enhancement_layer_is_p4_enhancement() {
    let w = wrapper_with(PacketType::Media);
    let rh = routing_header(false, 2, 0);
    assert_eq!(
        classify_outbound(&w, Some(MediaType::Video), Some(&rh)),
        Class::P4Enhancement
    );
}

#[test]
fn classify_outbound_media_without_routing_header_is_p3_video_base() {
    let w = wrapper_with(PacketType::Media);
    assert_eq!(classify_outbound(&w, None, None), Class::P3VideoBase);
}

#[test]
fn classify_outbound_unknown_packet_type_is_p3_video_base() {
    let w = wrapper_with(PacketType::Unknown);
    assert_eq!(classify_outbound(&w, None, None), Class::P3VideoBase);
}

#[test]
fn classify_outbound_keyframe_request_is_p0_control() {
    let w = wrapper_with(PacketType::Media);
    assert_eq!(
        classify_outbound(&w, Some(MediaType::KeyframeRequest), None),
        Class::P0Control
    );
}

#[test]
fn classify_outbound_screen_share_is_p4_enhancement() {
    let w = wrapper_with(PacketType::Media);
    let rh = routing_header(true, 0, 0);
    assert_eq!(
        classify_outbound(&w, Some(MediaType::Screen), Some(&rh)),
        Class::P4Enhancement
    );
}

#[test]
fn classify_outbound_subscription_update_is_p0_control() {
    let w = wrapper_with(PacketType::SubscriptionUpdate);
    assert_eq!(classify_outbound(&w, None, None), Class::P0Control);
}

#[test]
fn classify_outbound_layer_hint_is_p0_control() {
    let w = wrapper_with(PacketType::LayerHint);
    assert_eq!(classify_outbound(&w, None, None), Class::P0Control);
}

#[test]
fn classify_outbound_admission_decision_is_p0_control() {
    let w = wrapper_with(PacketType::AdmissionDecision);
    assert_eq!(classify_outbound(&w, None, None), Class::P0Control);
}

#[test]
fn classify_outbound_capability_announce_is_p0_control() {
    let w = wrapper_with(PacketType::CapabilityAnnounce);
    assert_eq!(classify_outbound(&w, None, None), Class::P0Control);
}

fn b(s: &str) -> Bytes {
    Bytes::from(s.to_owned().into_bytes())
}

fn tag(class: Class, n: usize) -> Bytes {
    b(&format!("{class:?}#{n}"))
}

#[test]
fn priority_receiver_strict_priority_drains_p0_first() {
    let per_class = 3;
    let (sender, mut channels) = PrioritySender::new();
    for class in Class::all() {
        for i in 0..per_class {
            assert_eq!(sender.send(&mut channels, class, tag(class, i)), SendOutcome::Sent);
        }
    }
    let mut rx = PriorityReceiver::new(channels);

    for class in Class::all() {
        for i in 0..per_class {
            let got = ready(rx.recv());
            assert_eq!(
                got,
                tag(class, i),
                "expected {class:?}#{i} next under strict priority"
            );
        }
    }

    sender.release(&mut rx.channels);
    assert_eq!(rx.recv(), RecvPoll::Closed);
}

#[test]
fn priority_receiver_fairness_quantum_returns_to_p4_when_p0_empty() {
    let (sender, mut channels) = PrioritySender::new();
    let total = 100;
    for i in 0..total {
        assert_eq!(
            sender.send(&mut channels, Class::P4Enhancement, tag(Class::P4Enhancement, i)),
            SendOutcome::Sent
        );
    }
    let mut rx = PriorityReceiver::new(channels);

    for i in 0..total {
        let got = ready(rx.recv());
        assert_eq!(got, tag(Class::P4Enhancement, i));
    }

    sender.release(&mut rx.channels);
    assert_eq!(rx.recv(), RecvPoll::Closed);
}

#[test]
fn priority_receiver_p0_preempts_mid_p4_drain() {
    let (sender, mut channels) = PrioritySender::new();
    for i in 0..20 {
        assert_eq!(
            sender.send(&mut channels, Class::P4Enhancement, tag(Class::P4Enhancement, i)),
            SendOutcome::Sent
        );
    }
    let mut rx = PriorityReceiver::new(channels);

    for i in 0..3 {
        assert_eq!(
            ready(rx.recv()),
            tag(Class::P4Enhancement, i),
            "P4 drain prefix"
        );
    }

    assert_eq!(
        sender.send(&mut rx.channels, Class::P0Control, tag(Class::P0Control, 0)),
        SendOutcome::Sent
    );

    let preempt = ready(rx.recv());
    assert_eq!(
        preempt,
        tag(Class::P0Control, 0),
        "P0 must win strict priority over remaining P4 backlog"
    );

    for i in 3..20 {
        assert_eq!(
            ready(rx.recv()),
            tag(Class::P4Enhancement, i),
            "P4 backlog should resume after P0 preempt"
        );
    }
}

#[test]
fn priority_receiver_continuous_p0_yields_to_p4_every_quantum() {
    let (sender, mut channels) = PrioritySender::new();
    let q = FAIRNESS_QUANTUM as usize;
    let p0_count = q * 2;
    for i in 0..p0_count {
        assert_eq!(
            sender.send(&mut channels, Class::P0Control, tag(Class::P0Control, i)),
            SendOutcome::Sent
        );
    }
    for i in 0..2 {
        assert_eq!(
            sender.send(&mut channels, Class::P4Enhancement, tag(Class::P4Enhancement, i)),
            SendOutcome::Sent
        );
    }
    let mut rx = PriorityReceiver::new(channels);

    for i in 0..q {
        assert_eq!(ready(rx.recv()), tag(Class::P0Control, i));
    }
    assert_eq!(
        ready(rx.recv()),
        tag(Class::P4Enhancement, 0),
        "after {q} P0 drains (P0 quantum-exhausted), P4 must be served"
    );
    assert_eq!(
        ready(rx.recv()),
        tag(Class::P4Enhancement, 1),
        "P4 keeps draining within its quantum while P0 stays exhausted"
    );
    for i in q..(2 * q) {
        assert_eq!(
            ready(rx.recv()),
            tag(Class::P0Control, i),
            "P0 resumes after P4 empties and the cycle resets"
        );
    }
}

#[test]
fn priority_receiver_returns_none_after_all_senders_drop() {
    let (sender, mut channels) = PrioritySender::new();
    sender.send(&mut channels, Class::P1Audio, b("a"));
    sender.send(&mut channels, Class::P1Audio, b("b"));
    sender.release(&mut channels);

    let mut rx = PriorityReceiver::new(channels);
    assert_eq!(ready(rx.recv()), b("a"));
    assert_eq!(ready(rx.recv()), b("b"));
    assert_eq!(rx.recv(), RecvPoll::Closed);
}

/// Losses and deliveries by class, as a caller counts them.
#[derive(Default)]
struct Counters {
    sent: HashMap<&'static str, u64>,
    dropped: HashMap<&'static str, u64>,
}

impl Counters {
    fn count(&mut self, class: Class, outcome: &SendOutcome) {
        let map = if outcome.is_loss() { &mut self.dropped } else { &mut self.sent };
        *map.entry(class.metric_label()).or_insert(0) += 1;
    }
}

fn overfill(class: Class) -> (Counters, SendOutcome) {
    let (sender, mut channels) = PrioritySender::new();
    let mut counters = Counters::default();
    for i in 0..class.capacity() {
        let outcome = sender.send(&mut channels, class, Bytes::from(format!("{i}").into_bytes()));
        counters.count(class, &outcome);
        assert_eq!(outcome, SendOutcome::Sent);
    }
    let outcome = sender.send(&mut channels, class, Bytes::from_static(b"overflow"));
    counters.count(class, &outcome);
    (counters, outcome)
}

#[test]
fn head_drop_increments_class_dropped_counter() {
    let (counters, outcome) = overfill(Class::P4Enhancement);
    assert!(
        matches!(outcome, SendOutcome::Dropped(Class::P4Enhancement, _)),
        "expected Dropped(P4Enhancement, _), got {outcome:?}"
    );
    assert_eq!(counters.dropped.get("P4Enhancement"), Some(&1));
}

#[test]
fn full_p3_send_increments_class_dropped_counter() {
    let (counters, outcome) = overfill(Class::P3VideoBase);
    assert!(
        matches!(outcome, SendOutcome::Dropped(Class::P3VideoBase, _)),
        "expected Dropped(P3VideoBase, _), got {outcome:?}"
    );
    assert_eq!(counters.dropped.get("P3VideoBase"), Some(&1));
}

#[test]
fn successful_send_increments_class_sent_counter() {
    let (sender, mut channels) = PrioritySender::new();
    let mut counters = Counters::default();
    let outcome = sender.send(&mut channels, Class::P1Audio, Bytes::from_static(b"audio"));
    counters.count(Class::P1Audio, &outcome);
    assert_eq!(outcome, SendOutcome::Sent);
    assert_eq!(counters.sent.get("P1Audio"), Some(&1));
    assert!(counters.dropped.is_empty());
}

#[test]
fn never_drop_refused_increments_class_dropped_counter() {
    let (counters, outcome) = overfill(Class::P0Control);
    assert_eq!(outcome, SendOutcome::Refused(SendError));
    assert_eq!(counters.dropped.get("P0Control"), Some(&1));
}

#[test]
fn priority_receiver_video_not_starved_under_sustained_audio_vc_ihk() {
    let (sender, channels) = PrioritySender::new();
    let mut rx = PriorityReceiver::new(channels);

    let mut served = [0usize; 5];
    let drains = (FAIRNESS_QUANTUM as usize) * 4 * 25;
    for n in 0..drains {
        if n % (FAIRNESS_QUANTUM as usize) == 0 {
            for _ in 0..FAIRNESS_QUANTUM {
                let _ = sender.send(&mut rx.channels, Class::P1Audio, b("a"));
                let _ = sender.send(&mut rx.channels, Class::P2Keyframe, b("k"));
                let _ = sender.send(&mut rx.channels, Class::P3VideoBase, b("v"));
                let _ = sender.send(&mut rx.channels, Class::P4Enhancement, b("e"));
            }
        }
        let got = ready(rx.recv());
        match &got[..] {
            b"a" => served[1] += 1,
            b"k" => served[2] += 1,
            b"v" => served[3] += 1,
            b"e" => served[4] += 1,
            other => panic!("unexpected payload {other:?}"),
        }
    }

    let total: usize = served.iter().sum();
    assert!(served[3] > 0, "P3 video-base starved to zero");
    assert!(served[4] > 0, "P4 enhancement starved to zero");
    let floor = total / 20;
    for (idx, &count) in served.iter().enumerate().skip(1) {
        assert!(
            count >= floor,
            "class index {idx} got {count}/{total} (<5%): video starved"
        );
    }
}

#[test]
fn priority_receiver_awaits_when_all_empty() {
    let (sender, channels) = PrioritySender::new();
    let mut rx = PriorityReceiver::new(channels);
    assert_eq!(rx.recv(), RecvPoll::Pending, "recv must wait when all queues are empty");

    assert_eq!(
        sender.send(&mut rx.channels, Class::P2Keyframe, b("kf-1")),
        SendOutcome::Sent
    );
    assert_eq!(ready(rx.recv()), b("kf-1"));
}

#[test]
fn shared_senders_keep_the_queues_open() {
    let (first, mut channels) = PrioritySender::new();
    let second = first.share(&mut channels);
    first.release(&mut channels);
    assert_eq!(channels.p1_audio.recv(), RecvPoll::Pending);
    assert_eq!(second.send(&mut channels, Class::P1Audio, b("late")), SendOutcome::Sent);
    second.release(&mut channels);
    assert_eq!(ready(channels.p1_audio.recv()), b("late"));
    assert_eq!(channels.p1_audio.recv(), RecvPoll::Closed);
}

#[test]
fn refusal_has_a_message() {
    assert_eq!(SendError.message(), "P0 control queue full");
    assert!(SendOutcome::Refused(SendError).is_loss());
    assert!(!SendOutcome::Sent.is_loss());
}

#[test]
fn every_loaded_class_gets_its_quantum() {
    let (sender, channels) = PrioritySender::new();
    let mut rx = PriorityReceiver::new(channels);
    for class in Class::all() {
        for i in 0..20 {
            sender.send(&mut rx.channels, class, tag(class, i));
        }
    }
    let mut order = Vec::new();
    for _ in 0..40 {
        order.push(ready(rx.recv()));
    }
    let mut expected = Vec::new();
    for class in Class::all() {
        for i in 0..8 {
            expected.push(tag(class, i));
        }
    }
    assert_eq!(order, expected);
}
