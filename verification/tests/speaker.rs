//! Speaker scores and the set of active speakers.
use sfu::float32::Float32;
use sfu::ids::SessionId;
use sfu::speaker::{SpeakerScorer, SpeakerTick, MAX_SPEAKERS};

const ALPHA: f32 = 0.3;
const SPEAKING_FLOOR: f32 = 0.05;
const MILLI: u64 = 1_000_000;
const SECOND: u64 = 1_000 * MILLI;
const T0: u64 = 1_000 * SECOND;

fn float(x: f32) -> Float32 {
    Float32 { bits: x.to_bits() }
}

fn value(x: Float32) -> f32 {
    f32::from_bits(x.bits)
}

#[test]
fn observe_then_score_applies_alpha_from_zero() {
    let mut s = SpeakerScorer::new();
    s.observe(1, float(0.8), true, T0);
    let expected = ALPHA * 0.8;
    assert!((value(s.score(1)) - expected).abs() < 1e-6);
    assert_eq!(value(s.score(999)), 0.0);
}

#[test]
fn is_speaking_respects_floor() {
    let mut s = SpeakerScorer::new();
    let just_under = (SPEAKING_FLOOR / ALPHA) - 0.01;
    s.observe(1, float(just_under), true, T0);
    assert!(value(s.score(1)) < SPEAKING_FLOOR);
    assert!(!s.is_speaking(1, T0));

    let just_over = (SPEAKING_FLOOR / ALPHA) + 0.05;
    s.observe(2, float(just_over), true, T0);
    assert!(value(s.score(2)) > SPEAKING_FLOOR);
    assert!(s.is_speaking(2, T0));
}

#[test]
fn top_n_returns_sorted_desc_and_respects_n() {
    let mut s = SpeakerScorer::new();
    s.observe(10, float(0.2), false, T0);
    s.observe(20, float(0.9), false, T0);
    s.observe(30, float(0.5), false, T0);

    let top2 = s.top_n(2);
    assert_eq!(top2.len(), 2);
    assert_eq!(top2[0].0, 20);
    assert_eq!(top2[1].0, 30);
    assert!(value(top2[0].1) >= value(top2[1].1));

    let top10 = s.top_n(10);
    assert_eq!(top10.len(), 3);
    assert_eq!(top10[0].0, 20);
    assert_eq!(top10[2].0, 10);

    assert!(s.top_n(0).is_empty());
}

#[test]
fn forget_removes_sender() {
    let mut s = SpeakerScorer::new();
    s.observe(1, float(0.7), true, T0);
    s.observe(2, float(0.5), true, T0);
    assert!(value(s.score(1)) > 0.0);

    s.forget(1);
    assert_eq!(value(s.score(1)), 0.0);

    let top = s.top_n(10);
    assert_eq!(top.len(), 1);
    assert_eq!(top[0].0, 2);
}

fn seed_high_score(scorer: &mut SpeakerScorer, sid: SessionId, level: f32) {
    for _ in 0..5 {
        scorer.observe(sid, float(level), true, T0);
    }
}

#[test]
fn hysteresis_entry_requires_full_window() {
    let mut scorer = SpeakerScorer::new();
    let mut tick = SpeakerTick::with_interval(200 * MILLI, String::new(), false, T0);

    {
        let s = &mut scorer;
        seed_high_score(s, 7, 0.8);
    }

    let t0 = T0;
    tick.tick_once(&scorer, t0);
    let snap = tick.current();
    assert!(
        snap.top.is_empty(),
        "must not admit on the first tick (entry window not elapsed)"
    );
    assert_eq!(snap.generation, 0, "generation stays 0 with no change");

    {
        let s = &mut scorer;
        s.forget(7);
        s.observe(99, float(0.0), false, T0);
    }
    let t1 = t0 + 100 * MILLI;
    tick.tick_once(&scorer, t1);
    let snap = tick.current();
    assert!(
        snap.top.is_empty(),
        "brief flash below 200ms must NOT enter the set"
    );
    assert_eq!(snap.generation, 0);
}

#[test]
fn hysteresis_exit_requires_full_window() {
    let mut scorer = SpeakerScorer::new();
    let mut tick = SpeakerTick::with_interval(200 * MILLI, String::new(), false, T0);

    {
        let s = &mut scorer;
        seed_high_score(s, 5, 0.9);
    }
    let t0 = T0;
    tick.tick_once(&scorer, t0);
    tick.tick_once(&scorer, t0 + 200 * MILLI);
    let snap = tick.current();
    assert!(
        snap.top.contains(&5),
        "sender must be admitted after entry window elapses: {:?}",
        snap.top
    );
    let gen_after_entry = snap.generation;
    assert!(gen_after_entry >= 1);

    {
        let s = &mut scorer;
        s.forget(5);
    }
    tick.tick_once(&scorer, t0 + 400 * MILLI);
    tick.tick_once(&scorer, t0 + 600 * MILLI);
    let snap = tick.current();
    assert!(
        snap.top.contains(&5),
        "sender must remain inside the 800ms exit window: {:?}",
        snap.top
    );
    assert_eq!(
        snap.generation, gen_after_entry,
        "generation must not bump while set is unchanged"
    );

    tick.tick_once(&scorer, t0 + 1300 * MILLI);
    let snap = tick.current();
    assert!(
        !snap.top.contains(&5),
        "sender must be evicted after exit window elapses"
    );
    assert!(snap.generation > gen_after_entry, "exit bumps generation");
}

#[test]
fn generation_increments_only_on_set_change() {
    let mut scorer = SpeakerScorer::new();
    let mut tick = SpeakerTick::with_interval(200 * MILLI, String::new(), false, T0);

    {
        let s = &mut scorer;
        seed_high_score(s, 1, 0.9);
        seed_high_score(s, 2, 0.6);
    }

    let t0 = T0;
    tick.tick_once(&scorer, t0);
    tick.tick_once(&scorer, t0 + 200 * MILLI);
    let snap = tick.current();
    let admitted_top = snap.top.clone();
    let gen1 = snap.generation;
    assert!(admitted_top.contains(&1) && admitted_top.contains(&2));
    assert!(gen1 >= 1);

    for k in 1..=4 {
        {
            let s = &mut scorer;
            s.observe(1, float(0.9), true, T0);
            s.observe(2, float(0.6), true, T0);
        }
        tick.tick_once(&scorer, t0 + (200 + 200 * k) * MILLI);
        let snap = tick.current();
        assert_eq!(snap.top, admitted_top, "membership/order must be stable");
        assert_eq!(snap.generation, gen1, "generation must not bump");
    }

    {
        let s = &mut scorer;
        seed_high_score(s, 3, 0.99);
        s.observe(1, float(0.9), true, T0);
        s.observe(2, float(0.6), true, T0);
    }
    tick.tick_once(&scorer, t0 + 1200 * MILLI);
    tick.tick_once(&scorer, t0 + 1400 * MILLI);
    let snap = tick.current();
    assert!(snap.top.contains(&3), "new speaker admitted");
    assert!(
        snap.generation > gen1,
        "generation must bump when set changes (got {} vs {})",
        snap.generation,
        gen1
    );
}

#[test]
fn top_n_cap_respected_with_excess_speakers() {
    let mut scorer = SpeakerScorer::new();
    let mut tick = SpeakerTick::with_interval(200 * MILLI, String::new(), false, T0);

    {
        let s = &mut scorer;
        seed_high_score(s, 10, 0.95);
        seed_high_score(s, 20, 0.90);
        seed_high_score(s, 30, 0.85);
        seed_high_score(s, 40, 0.80);
        seed_high_score(s, 50, 0.75);
        seed_high_score(s, 60, 0.70);
    }

    let t0 = T0;
    tick.tick_once(&scorer, t0);
    tick.tick_once(&scorer, t0 + 200 * MILLI);

    let snap = tick.current();
    assert_eq!(
        snap.top.len(),
        MAX_SPEAKERS,
        "top must be capped at MAX_SPEAKERS, got {:?}",
        snap.top
    );
    assert_eq!(snap.top, vec![10, 20, 30, 40]);
    assert!(!snap.top.contains(&50));
    assert!(!snap.top.contains(&60));
}

#[test]
fn no_publisher_means_no_publish() {
    let mut scorer = SpeakerScorer::new();
    let mut tick = SpeakerTick::with_interval(200 * MILLI, String::new(), false, T0);
    {
        let s = &mut scorer;
        seed_high_score(s, 1, 0.9);
    }
    let t0 = T0;
    tick.tick_once(&scorer, t0);
    tick.tick_once(&scorer, t0 + 200 * MILLI);
    let snap = tick.current();
    assert!(snap.top.contains(&1));
    assert_eq!(snap.generation, 1);
}

#[test]
fn constants_are_the_nearest_single_precision_values() {
    assert_eq!(f32::from_bits(sfu::speaker::ALPHA), ALPHA);
    assert_eq!(f32::from_bits(sfu::speaker::ONE_MINUS_ALPHA), 1.0 - ALPHA);
    assert_eq!(f32::from_bits(sfu::speaker::SPEAKING_FLOOR), SPEAKING_FLOOR);
}

#[test]
fn is_speaking_respects_vad_recency_window() {
    let mut s = SpeakerScorer::new();
    s.observe(1, float(0.9), true, T0);
    assert!(s.is_speaking(1, T0));

    let later = T0 + 450 * MILLI;
    s.observe(1, float(0.9), false, later);
    assert!(value(s.score(1)) > SPEAKING_FLOOR);
    assert!(!s.is_speaking(1, later));
}

#[test]
fn tick_fires_periodically_and_observes_scorer() {
    let mut scorer = SpeakerScorer::new();
    let mut tick = SpeakerTick::with_interval(200 * MILLI, String::new(), false, T0);
    seed_high_score(&mut scorer, 42, 0.9);
    for k in 1..=3 {
        tick.tick_once(&scorer, T0 + k * tick.interval);
    }
    let latest = tick.current();
    assert!(
        latest.top.contains(&42),
        "speaker 42 should be in the published set after multiple ticks: {:?}",
        latest.top
    );
    assert!(latest.generation >= 1, "generation must have advanced");
}

#[test]
fn publishes_speaker_update_on_generation_change() {
    let mut scorer = SpeakerScorer::new();
    let mut tick = SpeakerTick::with_interval(200 * MILLI, "room-42".to_string(), true, T0);
    seed_high_score(&mut scorer, 99, 0.9);
    let t0 = T0;
    assert!(tick.tick_once(&scorer, t0).is_none(), "no publish before admission");

    let published = tick.tick_once(&scorer, t0 + 200 * MILLI);
    let snap = tick.current();
    assert!(snap.top.contains(&99), "speaker admitted: {:?}", snap.top);
    assert_eq!(snap.generation, 1);

    let published = published.expect("exactly one SpeakerUpdate published on admission");
    assert_eq!(published.subject, "room.room-42.system", "publish targets room.{{room}}.system");
    let update = published.update;
    assert_eq!(update.generation, 1);
    assert_eq!(update.top_speakers.len(), 1);
    assert_eq!(update.top_speakers[0].session_id, 99);
    assert!(value(update.top_speakers[0].score) > SPEAKING_FLOOR);

    scorer.observe(99, float(0.9), true, T0);
    assert!(
        tick.tick_once(&scorer, t0 + 400 * MILLI).is_none(),
        "no publish when generation is unchanged"
    );
}

/// The moving average in the machine's own single precision.
#[test]
fn scores_agree_with_single_precision() {
    let mut s = SpeakerScorer::new();
    let mut expected = 0.0f32;
    let mut x: u32 = 12_345;
    for i in 0..5_000u32 {
        x = x.wrapping_mul(1_664_525).wrapping_add(1_013_904_223);
        let level = match i % 7 {
            0 => 0.0,
            1 => 1.0,
            2 => f32::from_bits(x % 0x0080_0000),
            _ => (x >> 8) as f32 / (1 << 24) as f32,
        };
        expected = ALPHA * level + (1.0 - ALPHA) * expected;
        s.observe(1, float(level), true, T0);
        assert_eq!(s.score(1), float(expected), "after {i} observations");
    }
}

#[test]
fn levels_out_of_range_are_brought_into_it() {
    let mut s = SpeakerScorer::new();
    s.observe(1, float(7.5), true, T0);
    s.observe(2, float(1.0), true, T0);
    assert_eq!(s.score(1), s.score(2));
    s.observe(3, float(-3.0), true, T0);
    assert_eq!(value(s.score(3)), 0.0);
}

#[test]
fn silence_never_raises_a_score() {
    let mut s = SpeakerScorer::new();
    s.observe(1, float(1.0), true, T0);
    let mut last = value(s.score(1));
    for _ in 0..400 {
        s.observe(1, float(0.0), false, T0);
        let next = value(s.score(1));
        assert!(next <= last);
        last = next;
    }
}

#[test]
fn equal_scores_keep_the_smaller_id_first() {
    let mut s = SpeakerScorer::new();
    for sid in [9, 4, 6] {
        s.observe(sid, float(0.5), true, T0);
    }
    let ids: Vec<u64> = s.top_n(3).iter().map(|e| e.0).collect();
    assert_eq!(ids, [4, 6, 9]);
}
