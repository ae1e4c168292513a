//! Scores over time, and when speakers enter and leave.
use sfu::float32::Float32;
use sfu::speaker::{SpeakerScorer, SpeakerTick, MAX_SPEAKERS};

const MILLI: u64 = 1_000_000;
const SECOND: u64 = 1_000 * MILLI;
const T0: u64 = 1_000 * SECOND;

fn float(x: f32) -> Float32 {
    Float32 { bits: x.to_bits() }
}

fn value(x: Float32) -> f32 {
    f32::from_bits(x.bits)
}

const ALPHA: f32 = 0.3;
const SPEAKING_FLOOR: f32 = 0.05;

#[test]
fn ewma_all_zero_samples_stay_at_zero() {
    let mut s = SpeakerScorer::new();
    for _ in 0..50 {
        s.observe(1, float(0.0), false, T0);
    }
    assert_eq!(
        value(s.score(1)),
        0.0,
        "EWMA of an all-zero input stream must remain exactly zero"
    );
}

#[test]
fn ewma_sustained_input_converges_toward_steady_state() {
    let mut s = SpeakerScorer::new();
    for _ in 0..10 {
        s.observe(1, float(0.5), true, T0);
    }
    let score = value(s.score(1));
    assert!(
        (score - 0.5).abs() < 0.05,
        "EWMA must converge within 0.05 of steady-state after ~10 observations; got {score}"
    );
}

#[test]
fn ewma_single_spike_then_silence_decays_gradually() {
    let mut s = SpeakerScorer::new();
    s.observe(1, float(1.0), true, T0);
    let after_spike = value(s.score(1));
    assert!(
        (after_spike - ALPHA).abs() < 1e-6,
        "first observation should land at ALPHA * input"
    );

    s.observe(1, float(0.0), false, T0);
    let after_one_silence = value(s.score(1));
    let expected_one = after_spike * (1.0 - ALPHA);
    assert!(
        (after_one_silence - expected_one).abs() < 1e-6,
        "one silent step should decay by factor (1-alpha)"
    );
    assert!(
        after_one_silence < after_spike,
        "decay must be monotonic downward"
    );

    for _ in 0..20 {
        s.observe(1, float(0.0), false, T0);
    }
    let final_score = value(s.score(1));
    assert!(final_score >= 0.0, "EWMA must never go negative");
    assert!(
        final_score < 0.01,
        "20 silent steps after a spike should decay below 0.01; got {final_score}"
    );
}

#[test]
fn is_speaking_true_when_score_above_floor_and_hint_recent() {
    let mut s = SpeakerScorer::new();
    s.observe(1, float(0.9), true, T0);
    assert!(value(s.score(1)) > SPEAKING_FLOOR);
    assert!(
        s.is_speaking(1, T0),
        "score above floor + fresh true-hint must read as speaking"
    );
}

#[test]
fn is_speaking_false_when_score_below_floor_even_with_hint() {
    let mut s = SpeakerScorer::new();
    s.observe(1, float(0.05), true, T0);
    assert!(value(s.score(1)) < SPEAKING_FLOOR);
    assert!(
        !s.is_speaking(1, T0),
        "score below floor must NEVER read as speaking, hint notwithstanding"
    );

    for _ in 0..2 {
        s.observe(1, float(0.05), true, T0);
    }
    assert!(value(s.score(1)) < SPEAKING_FLOOR);
    assert!(!s.is_speaking(1, T0));
}

fn seed_high_score(scorer: &mut SpeakerScorer, sid: u64, level: f32) {
    for _ in 0..5 {
        scorer.observe(sid, float(level), true, T0);
    }
}

#[test]
fn hysteresis_entry_brief_spike_below_window_does_not_admit() {
    let mut scorer = SpeakerScorer::new();
    let mut tick = SpeakerTick::with_interval(200 * MILLI, String::new(), false, T0);

    {
        let s = &mut scorer;
        seed_high_score(s, 7, 0.8);
    }

    let t0 = T0;
    tick.tick_once(&scorer, t0);
    let snap = tick.current();
    assert!(
        snap.top.is_empty(),
        "must not admit on the first above-threshold tick"
    );
    assert_eq!(snap.generation, 0);

    {
        let s = &mut scorer;
        s.forget(7);
        s.observe(99, float(0.0), false, T0);
    }
    tick.tick_once(&scorer, t0 + 100 * MILLI);
    let snap = tick.current();
    assert!(
        snap.top.is_empty(),
        "brief above-threshold flash (<200ms) must NOT enter the set: {:?}",
        snap.top
    );
    assert_eq!(
        snap.generation, 0,
        "no membership change => no generation bump"
    );
}

#[test]
fn hysteresis_entry_sustained_above_window_admits() {
    let mut scorer = SpeakerScorer::new();
    let mut tick = SpeakerTick::with_interval(200 * MILLI, String::new(), false, T0);

    {
        let s = &mut scorer;
        seed_high_score(s, 11, 0.9);
    }

    let t0 = T0;
    tick.tick_once(&scorer, t0);
    assert!(tick.current().top.is_empty());

    tick.tick_once(&scorer, t0 + 200 * MILLI);
    let snap = tick.current();
    assert!(
        snap.top.contains(&11),
        "sender held above threshold for >=200ms must be admitted: {:?}",
        snap.top
    );
    assert_eq!(snap.generation, 1, "first admission bumps generation to 1");
}

#[test]
fn hysteresis_exit_brief_dip_below_window_does_not_evict() {
    let mut scorer = SpeakerScorer::new();
    let mut tick = SpeakerTick::with_interval(200 * MILLI, String::new(), false, T0);

    {
        let s = &mut scorer;
        seed_high_score(s, 5, 0.9);
    }
    let t0 = T0;
    tick.tick_once(&scorer, t0);
    tick.tick_once(&scorer, t0 + 200 * MILLI);
    let admit_snap = tick.current();
    assert!(admit_snap.top.contains(&5));
    let gen_after_entry = admit_snap.generation;

    {
        let s = &mut scorer;
        s.forget(5);
    }
    tick.tick_once(&scorer, t0 + 400 * MILLI);
    tick.tick_once(&scorer, t0 + 600 * MILLI);
    let snap = tick.current();
    assert!(
        snap.top.contains(&5),
        "sender must persist inside the 800ms exit window: {:?}",
        snap.top
    );
    assert_eq!(
        snap.generation, gen_after_entry,
        "no eviction yet => no generation bump"
    );
}

#[test]
fn hysteresis_exit_sustained_below_window_evicts() {
    let mut scorer = SpeakerScorer::new();
    let mut tick = SpeakerTick::with_interval(200 * MILLI, String::new(), false, T0);

    {
        let s = &mut scorer;
        seed_high_score(s, 5, 0.9);
    }
    let t0 = T0;
    tick.tick_once(&scorer, t0);
    tick.tick_once(&scorer, t0 + 200 * MILLI);
    let gen_after_entry = tick.current().generation;

    {
        let s = &mut scorer;
        s.forget(5);
    }
    tick.tick_once(&scorer, t0 + 400 * MILLI);
    tick.tick_once(&scorer, t0 + 1300 * MILLI);
    let snap = tick.current();
    assert!(
        !snap.top.contains(&5),
        "sender must be evicted once below-streak >= 800ms: {:?}",
        snap.top
    );
    assert!(
        snap.generation > gen_after_entry,
        "eviction must bump generation (was {}, now {})",
        gen_after_entry,
        snap.generation
    );
}

#[test]
fn generation_does_not_increment_when_set_is_stable() {
    let mut scorer = SpeakerScorer::new();
    let mut tick = SpeakerTick::with_interval(200 * MILLI, String::new(), false, T0);

    {
        let s = &mut scorer;
        seed_high_score(s, 1, 0.9);
        seed_high_score(s, 2, 0.6);
    }

    let t0 = T0;
    tick.tick_once(&scorer, t0);
    tick.tick_once(&scorer, t0 + 200 * MILLI);
    let admitted = tick.current();
    let gen1 = admitted.generation;
    assert!(admitted.top.contains(&1) && admitted.top.contains(&2));
    assert!(gen1 >= 1);

    for k in 1..=5 {
        {
            let s = &mut scorer;
            s.observe(1, float(0.9), true, T0);
            s.observe(2, float(0.6), true, T0);
        }
        tick.tick_once(&scorer, t0 + (200 + 200 * k) * MILLI);
        let snap = tick.current();
        assert_eq!(
            snap.top, admitted.top,
            "membership/order must remain stable across quiet ticks"
        );
        assert_eq!(
            snap.generation, gen1,
            "generation must NOT bump when set is unchanged (tick {k})"
        );
    }
}

#[test]
fn generation_increments_on_each_set_change() {
    let mut scorer = SpeakerScorer::new();
    let mut tick = SpeakerTick::with_interval(200 * MILLI, String::new(), false, T0);

    {
        let s = &mut scorer;
        seed_high_score(s, 1, 0.9);
    }
    let t0 = T0;
    tick.tick_once(&scorer, t0);
    tick.tick_once(&scorer, t0 + 200 * MILLI);
    let gen_a = tick.current().generation;
    assert_eq!(gen_a, 1, "first admission bumps to 1");

    {
        let s = &mut scorer;
        seed_high_score(s, 2, 0.6);
        s.observe(1, float(0.9), true, T0);
    }
    tick.tick_once(&scorer, t0 + 400 * MILLI);
    tick.tick_once(&scorer, t0 + 600 * MILLI);
    let snap_b = tick.current();
    assert!(snap_b.top.contains(&2));
    let gen_b = snap_b.generation;
    assert!(
        gen_b > gen_a,
        "adding a member must bump generation (gen_a={gen_a}, gen_b={gen_b})"
    );

    {
        let s = &mut scorer;
        seed_high_score(s, 3, 0.99);
        s.observe(1, float(0.9), true, T0);
        s.observe(2, float(0.6), true, T0);
    }
    tick.tick_once(&scorer, t0 + 800 * MILLI);
    tick.tick_once(&scorer, t0 + 1000 * MILLI);
    let snap_c = tick.current();
    assert!(snap_c.top.contains(&3));
    let gen_c = snap_c.generation;
    assert!(
        gen_c > gen_b,
        "order change (new top speaker) must bump generation (gen_b={gen_b}, gen_c={gen_c})"
    );

    assert!(
        gen_a < gen_b && gen_b < gen_c,
        "generation must be monotonic"
    );
}

#[test]
fn top_n_cap_truncates_to_max_speakers_sorted_by_score() {
    let mut scorer = SpeakerScorer::new();
    let mut tick = SpeakerTick::with_interval(200 * MILLI, String::new(), false, T0);

    {
        let s = &mut scorer;
        seed_high_score(s, 10, 0.95);
        seed_high_score(s, 20, 0.90);
        seed_high_score(s, 30, 0.85);
        seed_high_score(s, 40, 0.80);
        seed_high_score(s, 50, 0.75);
        seed_high_score(s, 60, 0.70);
        seed_high_score(s, 70, 0.65);
        seed_high_score(s, 80, 0.60);
        seed_high_score(s, 90, 0.55);
        seed_high_score(s, 100, 0.50);
    }

    let t0 = T0;
    tick.tick_once(&scorer, t0);
    tick.tick_once(&scorer, t0 + 200 * MILLI);

    let snap = tick.current();
    assert_eq!(
        snap.top.len(),
        MAX_SPEAKERS,
        "set must be capped at MAX_SPEAKERS={MAX_SPEAKERS}, got {:?}",
        snap.top
    );
    assert_eq!(
        snap.top,
        vec![10, 20, 30, 40],
        "top must be sorted by score descending and contain the 4 highest"
    );
    for excluded in [50, 60, 70, 80, 90, 100] {
        assert!(
            !snap.top.contains(&excluded),
            "lower-scored sender {excluded} must not appear in capped top"
        );
    }
}

#[test]
fn is_speaking_false_when_hint_is_stale_beyond_window() {
    let mut s = SpeakerScorer::new();
    s.observe(1, float(0.9), true, T0);
    assert!(s.is_speaking(1, T0));

    let later = T0 + 450 * MILLI;
    s.observe(1, float(0.9), false, later);
    assert!(value(s.score(1)) > SPEAKING_FLOOR);
    assert!(
        !s.is_speaking(1, later),
        "stale hint (>400ms old) must disqualify the sender even with high score"
    );
}
