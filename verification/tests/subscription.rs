//! Subscriptions and what they resolve to.
use sfu::ids::SessionId;
use sfu::packet::{SubscriptionUpdate, VisibilitySlot};
use sfu::room_state::RemotePublishers;
use sfu::subscription::{LayerPref, SubscriptionStore, MAX_VISIBLE_VIDEO, PENDING_CAP};
use std::collections::HashSet;
use std::sync::Arc;

fn no_update() -> SubscriptionUpdate {
    SubscriptionUpdate {
        pinned_sessions: vec![],
        slots: vec![],
        max_video_kbps: 0,
        receive_all_audio: false,
        receive_all_video: false,
    }
}

fn members(ids: &[SessionId]) -> HashSet<SessionId> {
    ids.iter().copied().collect()
}

fn slot(session_id: SessionId, spatial: u32, temporal: u32) -> VisibilitySlot {
    let mut s = VisibilitySlot { session_id: 0, preferred_spatial: 0, preferred_temporal: 0 };
    s.session_id = session_id;
    s.preferred_spatial = spatial;
    s.preferred_temporal = temporal;
    s
}

fn update(
    pinned: &[SessionId],
    slots: Vec<VisibilitySlot>,
    receive_all_audio: bool,
) -> SubscriptionUpdate {
    let mut u = no_update();
    u.pinned_sessions = pinned.to_vec();
    u.slots = slots;
    u.max_video_kbps = 0;
    u.receive_all_audio = receive_all_audio;
    u.receive_all_video = false;
    u
}

fn update_all(
    pinned: &[SessionId],
    slots: Vec<VisibilitySlot>,
    receive_all_audio: bool,
    receive_all_video: bool,
) -> SubscriptionUpdate {
    let mut u = update(pinned, slots, receive_all_audio);
    u.receive_all_video = receive_all_video;
    u
}

#[test]
fn pin_only_resolves_to_pinned_sender() {
    let mut store = SubscriptionStore::new();
    let room = members(&[1, 2, 3]);
    store.apply_update(1, update(&[2], vec![], false), &room);

    let allow = store.resolve(1, &room, &[]);
    assert_eq!(allow.video.len(), 1);
    assert_eq!(allow.video.get(&2), Some(&LayerPref::default()));
    assert_eq!(allow.audio, [2].into_iter().collect::<HashSet<_>>());
}

#[test]
fn slot_only_resolves_with_layer_pref() {
    let mut store = SubscriptionStore::new();
    let room = members(&[1, 2, 3]);
    store.apply_update(1, update(&[], vec![slot(3, 2, 1)], false), &room);

    let allow = store.resolve(1, &room, &[]);
    assert_eq!(allow.video.len(), 1);
    assert_eq!(
        allow.video.get(&3),
        Some(&LayerPref {
            preferred_spatial: 2,
            preferred_temporal: 1,
        })
    );
    assert_eq!(allow.audio, [3].into_iter().collect::<HashSet<_>>());
}

#[test]
fn union_pin_slot_speaker_with_slot_pref_winning() {
    let mut store = SubscriptionStore::new();
    let room = members(&[1, 2, 3, 4]);
    store.apply_update(1, update(&[2, 3], vec![slot(2, 1, 2)], false), &room);

    let allow = store.resolve(1, &room, &[4]);
    assert_eq!(allow.video.len(), 3);
    assert_eq!(
        allow.video.get(&2),
        Some(&LayerPref {
            preferred_spatial: 1,
            preferred_temporal: 2,
        }),
        "slot pref must win over pinned default"
    );
    assert_eq!(allow.video.get(&3), Some(&LayerPref::default()));
    assert_eq!(allow.video.get(&4), Some(&LayerPref::default()));
}

#[test]
fn stale_entry_dropped_on_apply() {
    let mut store = SubscriptionStore::new();
    let room = members(&[1, 2]);
    store.apply_update(1, update(&[2], vec![slot(99, 3, 3)], false), &room);

    let allow = store.resolve(1, &room, &[]);
    assert!(!allow.video.contains_key(&99));
    assert_eq!(allow.video.len(), 1);
    assert_eq!(allow.video.get(&2), Some(&LayerPref::default()));
}

#[test]
fn pre_join_pin_promoted_after_member_joins() {
    let mut store = SubscriptionStore::new();
    let room_before = members(&[1, 2]);
    store.apply_update(1, update(&[5], vec![], false), &room_before);

    let allow = store.resolve(1, &room_before, &[]);
    assert!(!allow.video.contains_key(&5));

    let room_after = members(&[1, 2, 5]);
    store.apply_update(1, update(&[], vec![], false), &room_after);

    let allow = store.resolve(1, &room_after, &[]);
    assert!(
        allow.video.contains_key(&5),
        "pending pin must be promoted once sender joins"
    );
}

#[test]
fn oversize_pinned_caps_video_audio_follows_policy() {
    let mut store = SubscriptionStore::new();
    let pins: Vec<SessionId> = (10..20).collect();
    let mut all = pins.clone();
    all.push(1);
    let room = members(&all);

    store.apply_update(1, update(&pins, vec![], false), &room);
    let allow = store.resolve(1, &room, &[]);
    assert_eq!(allow.video.len(), MAX_VISIBLE_VIDEO as usize);
    assert_eq!(allow.audio.len(), MAX_VISIBLE_VIDEO as usize);
    let mut got: Vec<SessionId> = allow.video.keys().copied().collect();
    got.sort_unstable();
    assert_eq!(got, vec![10, 11, 12, 13, 14, 15]);

    store.apply_update(1, update(&pins, vec![], true), &room);
    let allow = store.resolve(1, &room, &[]);
    assert_eq!(allow.video.len(), MAX_VISIBLE_VIDEO as usize);
    assert_eq!(allow.audio.len(), 10);
}

#[test]
fn no_update_yields_legacy_default_allowset() {
    let store = SubscriptionStore::new();
    let room = members(&[1, 2, 3, 4]);
    let allow = store.resolve(1, &room, &[]);
    assert_eq!(allow.video.len(), 3);
    for sid in [2, 3, 4] {
        assert_eq!(allow.video.get(&sid), Some(&LayerPref::default()));
    }
    assert_eq!(allow.audio, [2, 3, 4].into_iter().collect::<HashSet<_>>());
}

#[test]
fn pending_cap_enforced() {
    let mut store = SubscriptionStore::new();
    let room = members(&[1]);
    let pins: Vec<SessionId> = (1000..1100).collect();
    store.apply_update(1, update(&pins, vec![], false), &room);

    let pending_len = store.pending.get(&1).map(|v| v.len()).unwrap_or(0);
    assert_eq!(pending_len, PENDING_CAP);
}

#[test]
fn receiver_excluded_from_own_allowset() {
    let mut store = SubscriptionStore::new();
    let room = members(&[1, 2, 3]);
    store.apply_update(1, update(&[1, 2], vec![slot(1, 2, 2)], true), &room);

    let allow = store.resolve(1, &room, &[1, 3]);
    assert!(!allow.video.contains_key(&1), "self-video must be excluded");
    assert!(!allow.audio.contains(&1), "self-audio must be excluded");
    assert!(allow.video.contains_key(&2));
    assert!(allow.video.contains_key(&3));
}

#[test]
fn mixed_tier_cap_pins_take_precedence_over_slots_and_speakers() {
    let mut store = SubscriptionStore::new();
    let pinned: Vec<SessionId> = vec![100, 101, 102];
    let slot_ids: Vec<SessionId> = vec![200, 201];
    let speakers: Vec<SessionId> = (300..310).collect();

    let mut all: Vec<SessionId> = Vec::new();
    all.push(1);
    all.extend(&pinned);
    all.extend(&slot_ids);
    all.extend(&speakers);
    let room = members(&all);

    let slots = vec![slot(200, 1, 1), slot(201, 2, 2)];
    store.apply_update(1, update(&pinned, slots, false), &room);

    let allow = store.resolve(1, &room, &speakers);
    assert_eq!(allow.video.len(), MAX_VISIBLE_VIDEO as usize);

    for sid in &pinned {
        assert_eq!(
            allow.video.get(sid),
            Some(&LayerPref::default()),
            "pinned sender {sid} must be present at base layer"
        );
    }

    assert_eq!(
        allow.video.get(&200),
        Some(&LayerPref {
            preferred_spatial: 1,
            preferred_temporal: 1,
        })
    );
    assert_eq!(
        allow.video.get(&201),
        Some(&LayerPref {
            preferred_spatial: 2,
            preferred_temporal: 2,
        })
    );

    assert!(allow.video.contains_key(&300));
    for sid in 301..310 {
        assert!(
            !allow.video.contains_key(&sid),
            "speaker {sid} must NOT appear (cap exhausted by pins+slots+lowest speaker)"
        );
    }
}

#[test]
fn empty_update_clears_prior_state() {
    let mut store = SubscriptionStore::new();
    let room = members(&[1, 10, 11]);

    store.apply_update(1, update(&[10, 11], vec![], false), &room);
    let seeded = store.resolve(1, &room, &[]);
    assert_eq!(seeded.video.len(), 2);

    store.apply_update(1, update(&[], vec![], false), &room);

    let allow = store.resolve(1, &room, &[]);
    assert!(
        allow.video.is_empty(),
        "video must be empty after declarative-replace with empty update"
    );
    assert!(
        allow.audio.is_empty(),
        "audio must be empty (receive_all_audio=false, no video)"
    );
}

#[test]
fn vc_3s8_late_joiner_visible_when_receive_all_video() {
    let mut store = SubscriptionStore::new();
    let room_before = members(&[1]);
    store.apply_update(1, update_all(&[], vec![], true, true), &room_before);

    let room_after = members(&[1, 2]);
    let allow = store.resolve(1, &room_after, &[]);

    assert!(
        allow.audio.contains(&2),
        "audio: late-joining sender 2 must be audible to listener 1"
    );
    assert!(
        allow.video.contains_key(&2),
        "video: late-joining sender 2 must be visible to listener 1 \
         (receive_all_video=true mirrors receive_all_audio \
         for late-joining publishers)"
    );
}

#[test]
fn vc_3s8_receive_all_video_caps_at_max_visible() {
    let mut store = SubscriptionStore::new();
    let mut all: Vec<SessionId> = (10..20).collect();
    all.push(1);
    let room = members(&all);
    store.apply_update(1, update_all(&[], vec![], false, true), &room);

    let allow = store.resolve(1, &room, &[]);
    assert_eq!(allow.video.len(), MAX_VISIBLE_VIDEO as usize);
    let mut got: Vec<SessionId> = allow.video.keys().copied().collect();
    got.sort_unstable();
    assert_eq!(got, vec![10, 11, 12, 13, 14, 15]);
}

#[test]
fn vc_3s8_explicit_tiers_win_over_receive_all_video() {
    let mut store = SubscriptionStore::new();
    let mut all: Vec<SessionId> = (10..18).collect();
    all.push(1);
    let room = members(&all);
    store.apply_update(1, update_all(&[17], vec![], false, true), &room);

    let allow = store.resolve(1, &room, &[]);
    assert_eq!(allow.video.len(), MAX_VISIBLE_VIDEO as usize);
    assert!(allow.video.contains_key(&17));
    for sid in [10, 11, 12, 13, 14] {
        assert!(allow.video.contains_key(&sid), "catch-all must admit {sid}");
    }
    assert!(!allow.video.contains_key(&15));
    assert!(!allow.video.contains_key(&16));
}

#[test]
fn vc_3s8_receive_all_video_dynamic_toggle_shrinks_allowset() {
    let mut store = SubscriptionStore::new();
    let room = members(&[1, 10, 11, 12]);

    store.apply_update(1, update_all(&[], vec![], false, true), &room);
    let allow_on = store.resolve(1, &room, &[]);
    assert_eq!(allow_on.video.len(), 3);
    for sid in [10, 11, 12] {
        assert!(allow_on.video.contains_key(&sid));
    }

    store.apply_update(1, update_all(&[], vec![], false, false), &room);
    let allow_off = store.resolve(1, &room, &[]);
    assert!(
        allow_off.video.is_empty(),
        "video must collapse when receive_all_video flips false with no \
         explicit pins/slots — declarative-replace contract"
    );
}

#[test]
fn vc_3s8_receive_all_video_drops_departed_member() {
    let mut store = SubscriptionStore::new();

    let room_before = members(&[1, 10, 11]);
    store.apply_update(1, update_all(&[], vec![], false, true), &room_before);
    let allow_before = store.resolve(1, &room_before, &[]);
    assert!(allow_before.video.contains_key(&10));
    assert!(allow_before.video.contains_key(&11));

    let room_after = members(&[1, 11]);
    let allow_after = store.resolve(1, &room_after, &[]);
    assert!(
        !allow_after.video.contains_key(&10),
        "departed member 10 must not appear in catch-all AllowSet"
    );
    assert!(allow_after.video.contains_key(&11));
}

#[test]
fn vc_7wi_late_listener_no_update_sees_existing_publisher() {
    let store = SubscriptionStore::new();
    let room = members(&[1, 2]);
    let allow = store.resolve(1, &room, &[]);

    assert!(
        allow.video.contains_key(&2),
        "video: an existing publisher (2) must be visible to a fresh \
         listener (1) that has never sent a SubscriptionUpdate \
         (legacy-default AllowSet path)"
    );
    assert!(
        allow.audio.contains(&2),
        "audio: an existing publisher (2) must be audible to a fresh \
         listener (1) that has never sent a SubscriptionUpdate"
    );
}

#[test]
fn vc_7wi_late_listener_with_empty_receive_all_sees_existing_publisher() {
    let mut store = SubscriptionStore::new();
    let room = members(&[1, 2]);
    store.apply_update(1, update_all(&[], vec![], true, true), &room);

    let allow = store.resolve(1, &room, &[]);
    assert!(
        allow.video.contains_key(&2),
        "video: existing publisher (2) must be in the AllowSet on the \
         first resolve after an empty receive_all_video=true update"
    );
    assert!(
        allow.audio.contains(&2),
        "audio: existing publisher (2) must be in the AllowSet on the \
         first resolve after an empty receive_all_audio=true update"
    );
}

#[test]
fn vc_3s8_speakers_win_over_receive_all_video_at_cap() {
    let mut store = SubscriptionStore::new();
    let mut all: Vec<SessionId> = (10..18).collect();
    all.push(1);
    let room = members(&all);
    store.apply_update(1, update_all(&[], vec![], false, true), &room);

    let allow = store.resolve(1, &room, &[16, 17]);
    assert_eq!(allow.video.len(), MAX_VISIBLE_VIDEO as usize);

    assert!(allow.video.contains_key(&16));
    assert!(allow.video.contains_key(&17));
    for sid in [10, 11, 12, 13] {
        assert!(allow.video.contains_key(&sid), "catch-all must admit {sid}");
    }
    assert!(!allow.video.contains_key(&14));
    assert!(!allow.video.contains_key(&15));
}

#[test]
fn forget_removes_all_state() {
    let mut store = SubscriptionStore::new();
    let room = members(&[1, 2]);
    store.apply_update(1, update(&[2, 99], vec![], false), &room);
    assert!(store.per_receiver.contains_key(&1));
    assert!(store.pending.contains_key(&1));

    store.forget(1);
    assert!(!store.per_receiver.contains_key(&1));
    assert!(!store.pending.contains_key(&1));
}

#[test]
fn resolve_cached_hit_returns_shared_arc() {
    let mut store = SubscriptionStore::new();
    let room = Arc::new(members(&[1, 2, 3]));
    let speakers: Arc<Vec<SessionId>> = Arc::new(vec![]);
    store.apply_update(1, update(&[2], vec![], false), &room);

    let a = store.resolve_cached(1, &room, 5, &speakers, 7, &RemotePublishers::default());
    let b = store.resolve_cached(1, &room, 5, &speakers, 7, &RemotePublishers::default());
    assert!(
        Arc::ptr_eq(&a, &b),
        "second resolve_cached must return the same Arc (cache hit)"
    );
    assert_eq!(a.video.len(), 1);
    assert!(a.video.contains_key(&2));
}

#[test]
fn resolve_cached_invalidates_on_apply_update() {
    let mut store = SubscriptionStore::new();
    let room = Arc::new(members(&[1, 2, 3]));
    let speakers: Arc<Vec<SessionId>> = Arc::new(vec![]);

    store.apply_update(1, update(&[2], vec![], false), &room);
    let a = store.resolve_cached(1, &room, 0, &speakers, 0, &RemotePublishers::default());

    store.apply_update(1, update(&[3], vec![], false), &room);
    let b = store.resolve_cached(1, &room, 0, &speakers, 0, &RemotePublishers::default());

    assert!(!Arc::ptr_eq(&a, &b), "apply_update must invalidate cache");
    assert!(a.video.contains_key(&2));
    assert!(!a.video.contains_key(&3));
    assert!(b.video.contains_key(&3));
    assert!(!b.video.contains_key(&2));
}

#[test]
fn resolve_cached_invalidates_on_members_generation() {
    let mut store = SubscriptionStore::new();
    let room = Arc::new(members(&[1, 2, 3]));
    let speakers: Arc<Vec<SessionId>> = Arc::new(vec![]);
    store.apply_update(1, update(&[2], vec![], false), &room);

    let a = store.resolve_cached(1, &room, 1, &speakers, 0, &RemotePublishers::default());
    let b = store.resolve_cached(1, &room, 2, &speakers, 0, &RemotePublishers::default());
    assert!(
        !Arc::ptr_eq(&a, &b),
        "members_generation change must invalidate cache"
    );
}

#[test]
fn resolve_cached_invalidates_on_speakers_generation() {
    let mut store = SubscriptionStore::new();
    let room = Arc::new(members(&[1, 2, 3]));
    let speakers: Arc<Vec<SessionId>> = Arc::new(vec![]);
    store.apply_update(1, update(&[2], vec![], false), &room);

    let a = store.resolve_cached(1, &room, 0, &speakers, 1, &RemotePublishers::default());
    let b = store.resolve_cached(1, &room, 0, &speakers, 2, &RemotePublishers::default());
    assert!(
        !Arc::ptr_eq(&a, &b),
        "speakers_generation change must invalidate cache"
    );
}

#[test]
fn resolve_cached_legacy_default_path_is_cached() {
    let mut store = SubscriptionStore::new();
    let room = Arc::new(members(&[1, 2, 3, 4]));
    let speakers: Arc<Vec<SessionId>> = Arc::new(vec![]);

    let a = store.resolve_cached(1, &room, 0, &speakers, 0, &RemotePublishers::default());
    let b = store.resolve_cached(1, &room, 0, &speakers, 0, &RemotePublishers::default());
    assert!(Arc::ptr_eq(&a, &b), "default-path resolve must cache");
    assert_eq!(a.video.len(), 3);
}

#[test]
fn forget_evicts_cache_entry() {
    let mut store = SubscriptionStore::new();
    let room = Arc::new(members(&[1, 2, 3]));
    let speakers: Arc<Vec<SessionId>> = Arc::new(vec![]);
    store.apply_update(1, update(&[2], vec![], false), &room);

    let _ = store.resolve_cached(1, &room, 0, &speakers, 0, &RemotePublishers::default());
    assert!(store.cache.contains_key(&1));

    store.forget(1);
    assert!(!store.cache.contains_key(&1));
    assert!(!store.sub_version.contains_key(&1));
}

#[test]
fn apply_update_on_other_receiver_preserves_cache() {
    let mut store = SubscriptionStore::new();
    let room = Arc::new(members(&[1, 2, 3]));
    let speakers: Arc<Vec<SessionId>> = Arc::new(vec![]);
    store.apply_update(1, update(&[2], vec![], false), &room);
    store.apply_update(2, update(&[3], vec![], false), &room);

    let a = store.resolve_cached(1, &room, 0, &speakers, 0, &RemotePublishers::default());
    store.apply_update(2, update(&[1], vec![], false), &room);
    let b = store.resolve_cached(1, &room, 0, &speakers, 0, &RemotePublishers::default());
    assert!(
        Arc::ptr_eq(&a, &b),
        "receiver 1's cache must survive receiver 2's apply_update"
    );
}

#[test]
fn receive_mode_defaults_to_all_for_no_update_receiver() {
    let store = SubscriptionStore::new();
    assert_eq!(store.receive_mode(1), (true, true));
}

#[test]
fn receive_mode_reports_declared_flags() {
    let mut store = SubscriptionStore::new();
    let room = members(&[1, 2]);

    store.apply_update(1, update_all(&[], vec![], true, true), &room);
    assert_eq!(store.receive_mode(1), (true, true));

    store.apply_update(1, update_all(&[], vec![], true, false), &room);
    assert_eq!(store.receive_mode(1), (true, false));

    store.apply_update(1, update_all(&[], vec![], false, false), &room);
    assert_eq!(store.receive_mode(1), (false, false));
}

#[test]
fn resolve_cached_lower_generation_misses() {
    let mut store = SubscriptionStore::new();
    let room = Arc::new(members(&[1, 2, 3]));
    let speakers: Arc<Vec<SessionId>> = Arc::new(vec![]);
    store.apply_update(1, update(&[2], vec![], false), &room);

    let a = store.resolve_cached(1, &room, 5, &speakers, 0, &RemotePublishers::default());
    let b = store.resolve_cached(1, &room, 3, &speakers, 0, &RemotePublishers::default());
    assert!(
        !Arc::ptr_eq(&a, &b),
        "lower members_generation must miss (equality, not monotonic-or-greater)"
    );
}

fn remote(audio: &[SessionId], video: &[SessionId]) -> RemotePublishers {
    RemotePublishers {
        audio: audio.iter().copied().collect(),
        video: video.iter().copied().collect(),
    }
}

#[test]
fn spill_listener_admits_cross_pod_publisher_over_listeners() {
    let store = SubscriptionStore::new();
    let mut all: Vec<SessionId> = (1..=21).collect();
    let room: HashSet<SessionId> = all.drain(..).collect();
    let pubs = remote(&[999], &[999]);

    let allow = store.resolve_inner(1, &room, &[], &pubs);
    assert!(
        allow.audio.contains(&999),
        "cross-pod publisher audio must be admitted to a legacy-default listener"
    );
    assert!(
        allow.video.contains_key(&999),
        "cross-pod publisher video must be present so the forwarder admits it \
         via allow.video.contains_key (not dropped as unsubscribed)"
    );
}

#[test]
fn multiple_cross_pod_video_publishers_admitted() {
    let store = SubscriptionStore::new();
    let mut all: Vec<SessionId> = (1..=20).collect();
    let room: HashSet<SessionId> = all.drain(..).collect();
    let pubs = remote(&[901, 902, 903], &[901, 902, 903]);

    let allow = store.resolve_inner(1, &room, &[], &pubs);
    for p in [901, 902, 903] {
        assert!(
            allow.video.contains_key(&p),
            "every cross-pod video publisher must be in allow.video ({p})"
        );
    }
}

#[test]
fn receive_all_video_admits_cross_pod_publisher() {
    let mut store = SubscriptionStore::new();
    let room = members(&[1]);
    store.apply_update(1, update_all(&[], vec![], true, true), &room);
    let pubs = remote(&[999], &[999]);

    let allow = store.resolve_inner(1, &room, &[], &pubs);
    assert!(allow.video.contains_key(&999));
    assert!(allow.audio.contains(&999));
}

#[test]
fn restrictive_subscription_ignores_cross_pod_publishers() {
    let mut store = SubscriptionStore::new();
    let room = members(&[1, 2]);
    store.apply_update(1, update_all(&[], vec![], false, false), &room);
    let pubs = remote(&[999], &[999]);

    let allow = store.resolve_inner(1, &room, &[], &pubs);
    assert!(
        !allow.video.contains_key(&999),
        "restrictive subscription must not admit a cross-pod video publisher"
    );
    assert!(
        !allow.audio.contains(&999),
        "restrictive subscription must not admit a cross-pod audio publisher"
    );
}

#[test]
fn audio_only_cross_pod_publisher_not_in_video() {
    let store = SubscriptionStore::new();
    let room = members(&[1]);
    let pubs = remote(&[999], &[]);

    let allow = store.resolve_inner(1, &room, &[], &pubs);
    assert!(allow.audio.contains(&999));
    assert!(!allow.video.contains_key(&999));
}

#[test]
fn rewarm_makes_post_join_resolve_a_hit_with_fresh_contents() {
    let mut store = SubscriptionStore::new();
    let room_g0 = Arc::new(members(&[1, 2]));
    let speakers: Arc<Vec<SessionId>> = Arc::new(vec![]);

    let a = store.resolve_cached(1, &room_g0, 0, &speakers, 0, &RemotePublishers::default());
    assert_eq!(a.video.len(), 1);
    assert!(a.video.contains_key(&2));

    let room_g1 = Arc::new(members(&[1, 2, 3]));
    store.rewarm_cache(&room_g1, 1, &speakers, 0, &RemotePublishers::default());

    let warmed =
        store.resolve_cached(1, &room_g1, 1, &speakers, 0, &RemotePublishers::default());
    let again =
        store.resolve_cached(1, &room_g1, 1, &speakers, 0, &RemotePublishers::default());
    assert!(
        Arc::ptr_eq(&warmed, &again),
        "post-rewarm resolve must hit the warmed entry (no recompute)"
    );
    assert!(
        warmed.video.contains_key(&3),
        "warmed AllowSet must include the newly-joined member 3"
    );
    assert!(warmed.video.contains_key(&2));
}

#[test]
fn rewarm_skips_cold_receivers() {
    let mut store = SubscriptionStore::new();
    let room = Arc::new(members(&[1, 2, 3]));
    let speakers: Arc<Vec<SessionId>> = Arc::new(vec![]);

    let _ = store.resolve_cached(1, &room, 0, &speakers, 0, &RemotePublishers::default());

    store.rewarm_cache(&room, 1, &speakers, 0, &RemotePublishers::default());

    assert!(
        store.cache.contains_key(&1),
        "primed receiver must be warmed"
    );
    assert!(
        !store.cache.contains_key(&2),
        "cold receiver must NOT be warmed by rewarm_cache"
    );
    assert!(!store.cache.contains_key(&3));
}

#[test]
fn rewarm_never_serves_stale_entry_for_a_newer_generation() {
    let mut store = SubscriptionStore::new();
    let room_g1 = Arc::new(members(&[1, 2]));
    let speakers: Arc<Vec<SessionId>> = Arc::new(vec![]);

    let _ = store.resolve_cached(1, &room_g1, 1, &speakers, 0, &RemotePublishers::default());
    store.rewarm_cache(&room_g1, 1, &speakers, 0, &RemotePublishers::default());

    let room_g2 = Arc::new(members(&[1, 2, 3]));
    let fresh =
        store.resolve_cached(1, &room_g2, 2, &speakers, 0, &RemotePublishers::default());
    assert!(
        fresh.video.contains_key(&3),
        "resolve_cached must recompute (not serve the stale gen-1 entry) when \
         the live generation moved past the warmed one"
    );
}

#[test]
fn rewarm_preserves_visible_tile_cap_for_receive_all_video() {
    let mut store = SubscriptionStore::new();
    let speakers: Arc<Vec<SessionId>> = Arc::new(vec![]);

    let mut all: Vec<SessionId> = (20..26).collect();
    all.push(1);
    let room_g0 = Arc::new(members(&all));
    store.apply_update(1, update_all(&[], vec![], false, true), &room_g0);
    let before =
        store.resolve_cached(1, &room_g0, 0, &speakers, 0, &RemotePublishers::default());
    let mut got_before: Vec<SessionId> = before.video.keys().copied().collect();
    got_before.sort_unstable();
    assert_eq!(got_before, vec![20, 21, 22, 23, 24, 25]);

    let mut all2 = all.clone();
    all2.push(5);
    let room_g1 = Arc::new(members(&all2));
    store.rewarm_cache(&room_g1, 1, &speakers, 0, &RemotePublishers::default());

    let after =
        store.resolve_cached(1, &room_g1, 1, &speakers, 0, &RemotePublishers::default());
    assert_eq!(after.video.len(), MAX_VISIBLE_VIDEO as usize);
    let mut got_after: Vec<SessionId> = after.video.keys().copied().collect();
    got_after.sort_unstable();
    assert_eq!(
        got_after,
        vec![5, 20, 21, 22, 23, 24],
        "low-id joiner must enter the capped visible set, displacing the highest id"
    );
}

#[test]
fn rewarm_preserves_cross_pod_publisher_folding() {
    let mut store = SubscriptionStore::new();
    let speakers: Arc<Vec<SessionId>> = Arc::new(vec![]);
    let room = Arc::new(members(&[1, 2]));

    let _ = store.resolve_cached(1, &room, 0, &speakers, 0, &RemotePublishers::default());

    let pubs = remote(&[999], &[999]);
    store.rewarm_cache(&room, 1, &speakers, 1, &pubs);

    let warmed = store.resolve_cached(1, &room, 1, &speakers, 1, &pubs);
    assert!(
        warmed.video.contains_key(&999),
        "cross-pod video publisher must be folded into the warmed AllowSet"
    );
    assert!(warmed.audio.contains(&999));
}

#[test]
fn rewarm_preserves_explicit_subscription() {
    let mut store = SubscriptionStore::new();
    let speakers: Arc<Vec<SessionId>> = Arc::new(vec![]);
    let room_g0 = Arc::new(members(&[1, 2, 3]));
    store.apply_update(1, update(&[2], vec![], false), &room_g0);
    let _ = store.resolve_cached(1, &room_g0, 0, &speakers, 0, &RemotePublishers::default());

    let room_g1 = Arc::new(members(&[1, 2, 3, 4]));
    store.rewarm_cache(&room_g1, 1, &speakers, 0, &RemotePublishers::default());

    let warmed =
        store.resolve_cached(1, &room_g1, 1, &speakers, 0, &RemotePublishers::default());
    let again =
        store.resolve_cached(1, &room_g1, 1, &speakers, 0, &RemotePublishers::default());
    assert!(
        Arc::ptr_eq(&warmed, &again),
        "explicit receiver must hit post-rewarm"
    );
    assert_eq!(warmed.video.len(), 1);
    assert!(warmed.video.contains_key(&2));
    assert!(!warmed.video.contains_key(&4));
}

#[test]
fn rewarm_empty_cache_is_noop() {
    let mut store = SubscriptionStore::new();
    let room = Arc::new(members(&[1, 2]));
    let speakers: Arc<Vec<SessionId>> = Arc::new(vec![]);
    store.rewarm_cache(&room, 1, &speakers, 0, &RemotePublishers::default());
    assert!(store.cache.is_empty());
}

#[test]
fn update_leaves_other_receivers_alone() {
    let mut store = SubscriptionStore::new();
    let room = members(&[1, 2, 3]);
    store.apply_update(2, update(&[3], vec![], false), &room);
    let before = store.resolve(2, &room, &[]);
    store.apply_update(1, update(&[2], vec![], true), &room);
    store.forget(1);
    let after = store.resolve(2, &room, &[]);
    assert_eq!(before.video, after.video);
    assert_eq!(before.audio, after.audio);
}
