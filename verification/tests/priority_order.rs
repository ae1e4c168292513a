//! Order and loss over all outbound queues.
use bytes::Bytes;
use sfu::priority_queue::{
    Class, DropPolicy, PriorityReceiver, PrioritySender, RecvPoll, SendError, SendOutcome,
    FAIRNESS_QUANTUM,
};

fn ready(poll: RecvPoll) -> Bytes {
    match poll {
        RecvPoll::Ready(bytes) => bytes,
        other => panic!("packet must be available, got {other:?}"),
    }
}

fn payload(tag: &str, n: usize) -> Bytes {
    Bytes::from(format!("{tag}#{n}").into_bytes())
}

#[test]
fn strict_priority_order() {
    let (sender, mut channels) = PrioritySender::new();
    let per_class = 3;
    let classes = [Class::P0Control, Class::P1Audio, Class::P4Enhancement];

    for class in classes {
        for i in 0..per_class {
            let outcome = sender.send(&mut channels, class, payload(&format!("{class:?}"), i));
            assert_eq!(outcome, SendOutcome::Sent, "fill {class:?}#{i}");
        }
    }

    let mut rx = PriorityReceiver::new(channels);
    for class in classes {
        for i in 0..per_class {
            let got = ready(rx.recv());
            assert_eq!(
                got,
                payload(&format!("{class:?}"), i),
                "expected {class:?}#{i} next under strict priority"
            );
        }
    }

    sender.release(&mut rx.channels);
    assert_eq!(rx.recv(), RecvPoll::Closed, "recv must terminate after drain");
}

#[test]
fn fairness_quantum_prevents_starvation() {
    let (sender, mut channels) = PrioritySender::new();
    let total_p4 = 100;
    for i in 0..total_p4 {
        assert_eq!(
            sender.send(&mut channels, Class::P4Enhancement, payload("p4", i)),
            SendOutcome::Sent,
            "fill p4#{i}"
        );
    }
    let mut rx = PriorityReceiver::new(channels);

    for i in 0..4 {
        let got = ready(rx.recv());
        assert_eq!(got, payload("p4", i), "first-4 P4 drain prefix");
    }

    assert_eq!(
        sender.send(&mut rx.channels, Class::P0Control, payload("p0", 0)),
        SendOutcome::Sent,
        "p0 injection should succeed"
    );

    let next = ready(rx.recv());
    assert_eq!(
        next,
        payload("p0", 0),
        "P0 must preempt a lower-priority P4 backlog — got {next:?} instead"
    );

    for i in 4..total_p4 {
        let got = ready(rx.recv());
        assert_eq!(got, payload("p4", i), "P4 backlog resumes after P0 preempt");
    }

    sender.release(&mut rx.channels);
    assert_eq!(rx.recv(), RecvPoll::Closed, "recv must terminate after drain");
}

#[test]
fn drop_policy_tail_drop_oldest() {
    assert_eq!(Class::P3VideoBase.capacity(), 256);
    assert_eq!(Class::P3VideoBase.drop_policy(), DropPolicy::TailDropOldest);

    let (sender, mut channels) = PrioritySender::new();
    let cap = Class::P3VideoBase.capacity();

    for i in 0..cap {
        assert_eq!(
            sender.send(&mut channels, Class::P3VideoBase, payload("v", i)),
            SendOutcome::Sent,
            "fill v#{i} should succeed"
        );
    }

    let outcome = sender.send(&mut channels, Class::P3VideoBase, Bytes::from_static(b"overflow"));
    match outcome {
        SendOutcome::Dropped(Class::P3VideoBase, reason) => {
            assert_eq!(reason, "tail_drop_oldest");
        }
        other => panic!("expected Dropped(P3VideoBase, tail_drop_oldest), got {other:?}"),
    }

    let mut drained = Vec::with_capacity(cap);
    while let Some(b) = channels.p3_video_base.try_recv() {
        drained.push(b);
    }
    assert_eq!(drained.len(), cap, "queue should still hold {cap} items");
    assert_eq!(
        &drained[0][..],
        payload("v", 1).as_ref(),
        "head shifted to v#1"
    );
    assert_eq!(
        &drained[drained.len() - 1][..],
        b"overflow",
        "new entry sits at the tail"
    );
    assert!(
        drained.iter().all(|b| &b[..] != payload("v", 0).as_ref()),
        "v#0 (original head) must have been evicted"
    );
}

#[test]
fn drop_policy_head_drop_oldest() {
    assert_eq!(Class::P4Enhancement.capacity(), 256);
    assert_eq!(
        Class::P4Enhancement.drop_policy(),
        DropPolicy::HeadDropOldest
    );

    let (sender, mut channels) = PrioritySender::new();
    let cap = Class::P4Enhancement.capacity();

    for i in 0..cap {
        assert_eq!(
            sender.send(&mut channels, Class::P4Enhancement, payload("e", i)),
            SendOutcome::Sent,
            "fill e#{i} should succeed"
        );
    }

    let outcome = sender.send(&mut channels, Class::P4Enhancement, Bytes::from_static(b"overflow"));
    match outcome {
        SendOutcome::Dropped(Class::P4Enhancement, reason) => {
            assert_eq!(
                reason, "head_drop_new",
                "HeadDropOldest drops the new entry"
            );
        }
        other => panic!("expected Dropped(P4Enhancement, head_drop_new), got {other:?}"),
    }

    let mut drained = Vec::with_capacity(cap);
    while let Some(b) = channels.p4_enhancement.try_recv() {
        drained.push(b);
    }
    assert_eq!(drained.len(), cap, "in-flight backlog preserved intact");
    for (i, b) in drained.iter().enumerate() {
        assert_eq!(
            &b[..],
            payload("e", i).as_ref(),
            "FIFO order preserved at slot {i}"
        );
    }
    assert!(
        drained.iter().all(|b| &b[..] != b"overflow"),
        "head_drop policy must reject the new entry"
    );
}

#[test]
fn never_drop_class_refuses_when_full() {
    assert_eq!(Class::P0Control.capacity(), 32);
    assert_eq!(Class::P0Control.drop_policy(), DropPolicy::NeverDrop);

    let (sender, mut channels) = PrioritySender::new();
    let cap = Class::P0Control.capacity();

    for i in 0..cap {
        assert_eq!(
            sender.send(&mut channels, Class::P0Control, payload("c", i)),
            SendOutcome::Sent,
            "fill c#{i} should succeed"
        );
    }

    let outcome = sender.send(&mut channels, Class::P0Control, Bytes::from_static(b"overflow"));
    assert_eq!(
        outcome,
        SendOutcome::Refused(SendError),
        "NeverDrop must Refuse, not Drop"
    );

    let mut drained = Vec::with_capacity(cap);
    while let Some(b) = channels.p0_control.try_recv() {
        drained.push(b);
    }
    assert_eq!(drained.len(), cap, "refusal must not alter queue contents");
    for (i, b) in drained.iter().enumerate() {
        assert_eq!(
            &b[..],
            payload("c", i).as_ref(),
            "FIFO order intact at slot {i}"
        );
    }
    assert!(
        drained.iter().all(|b| &b[..] != b"overflow"),
        "refused entry must not be in queue"
    );
}

#[test]
fn fairness_quantum_constant_matches_bead_spec() {
    assert_eq!(FAIRNESS_QUANTUM, 8);
}
