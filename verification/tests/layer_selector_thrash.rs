//! Layer choices under a bandwidth that moves.
use sfu::ids::SessionId;
use sfu::layer_selector::{LayerSelection, LayerSelector};
use sfu::subscription::{AllowSet, LayerPref};

const MILLI: u64 = 1_000_000;
const SECOND: u64 = 1_000 * MILLI;
const T0: u64 = 1_000 * SECOND;

const LOW_KBPS: u32 = 170;

const HIGH_KBPS: u32 = 1000;

const DOWNGRADE_COOLDOWN: u64 = 5 * SECOND;

const RECEIVER: SessionId = 1;
const SENDER: SessionId = 2;

fn allow_one() -> AllowSet {
    let mut a = AllowSet::new();
    a.video.insert(SENDER, LayerPref::default());
    a.audio.insert(SENDER);
    a
}

fn temporal(sel: &LayerSelection) -> Option<u32> {
    sel.forward.get(&(SENDER, 0))
}

#[test]
fn s1_steady_high_bandwidth_never_changes_selection() {
    let mut sel = LayerSelector::new();
    let allow = allow_one();
    let t0 = T0;

    let baseline = sel.pick_with_hysteresis(RECEIVER, &allow, &[], HIGH_KBPS, t0);
    assert_eq!(
        temporal(&baseline),
        Some(1),
        "1000 kbps seeds at T1 (T2 cumulative 896 > 850 budget)",
    );

    for ms in (100..=60_000).step_by(100) {
        let now = t0 + ms * MILLI;
        let out = sel.pick_with_hysteresis(RECEIVER, &allow, &[], HIGH_KBPS, now);
        assert_eq!(
            out, baseline,
            "+{ms} ms: selection must be identical under constant bandwidth",
        );
    }
}

#[test]
fn s2_brief_two_second_spike_does_not_upgrade() {
    let mut sel = LayerSelector::new();
    let allow = allow_one();
    let t0 = T0;

    let seed = sel.pick_with_hysteresis(RECEIVER, &allow, &[], LOW_KBPS, t0);
    assert_eq!(temporal(&seed), Some(0), "low budget seeds at T0");

    for s in 1..=30 {
        let out =
            sel.pick_with_hysteresis(RECEIVER, &allow, &[], LOW_KBPS, t0 + s * SECOND);
        assert_eq!(out, seed, "+{s} s steady low must remain T0");
    }

    let spike_start = t0 + 30 * SECOND;

    for &ms in &[1u64, 100, 500, 1_000, 1_500, 1_999] {
        let now = spike_start + ms * MILLI;
        let out = sel.pick_with_hysteresis(RECEIVER, &allow, &[], HIGH_KBPS, now);
        assert_eq!(out, seed, "spike +{ms} ms: streak < 3 s, must not upgrade",);
    }

    let post_spike = spike_start + 2 * SECOND;
    for s in 1..=5 {
        let now = post_spike + s * SECOND;
        let out = sel.pick_with_hysteresis(RECEIVER, &allow, &[], LOW_KBPS, now);
        assert_eq!(out, seed, "post-spike +{s} s low must remain T0");
    }
}

#[test]
fn s3_sustained_increase_upgrades_at_three_seconds() {
    let mut sel = LayerSelector::new();
    let allow = allow_one();
    let t0 = T0;

    let seed = sel.pick_with_hysteresis(RECEIVER, &allow, &[], LOW_KBPS, t0);
    assert_eq!(temporal(&seed), Some(0));

    for s in 1..=30 {
        let out =
            sel.pick_with_hysteresis(RECEIVER, &allow, &[], LOW_KBPS, t0 + s * SECOND);
        assert_eq!(out, seed, "+{s} s steady low must remain T0");
    }

    let high_start = t0 + 30 * SECOND;

    let first_high = sel.pick_with_hysteresis(RECEIVER, &allow, &[], HIGH_KBPS, high_start);
    assert_eq!(
        temporal(&first_high),
        Some(0),
        "first high call: streak 0 s, upgrade must be blocked",
    );

    for s in [1u64, 2] {
        let out = sel.pick_with_hysteresis(
            RECEIVER,
            &allow,
            &[],
            HIGH_KBPS,
            high_start + s * SECOND,
        );
        assert_eq!(
            temporal(&out),
            Some(0),
            "+{s} s high: streak < 3 s, blocked",
        );
    }

    let at_three = sel.pick_with_hysteresis(
        RECEIVER,
        &allow,
        &[],
        HIGH_KBPS,
        high_start + 3 * SECOND,
    );
    assert_eq!(
        temporal(&at_three),
        Some(1),
        "3 s into sustained high — streak == 3 s, upgrade must fire",
    );

    for s in 4..=10 {
        let out = sel.pick_with_hysteresis(
            RECEIVER,
            &allow,
            &[],
            HIGH_KBPS,
            high_start + s * SECOND,
        );
        assert_eq!(out, at_three, "+{s} s into high: no second upgrade");
    }
}

#[test]
fn s4_brief_dip_downgrades_immediately_then_cooldown_holds_five_seconds() {
    let mut sel = LayerSelector::new();
    let allow = allow_one();
    let t0 = T0;

    let seed = sel.pick_with_hysteresis(RECEIVER, &allow, &[], HIGH_KBPS, t0);
    assert_eq!(temporal(&seed), Some(1));

    for s in 1..=30 {
        let out = sel.pick_with_hysteresis(
            RECEIVER,
            &allow,
            &[],
            HIGH_KBPS,
            t0 + s * SECOND,
        );
        assert_eq!(out, seed, "+{s} s high steady-state must stay T1");
    }

    let dip_at = t0 + 31 * SECOND;
    let downgraded = sel.pick_with_hysteresis(RECEIVER, &allow, &[], LOW_KBPS, dip_at);
    assert_eq!(
        temporal(&downgraded),
        Some(0),
        "dip must downgrade immediately to T0 (no symmetric hysteresis)",
    );

    let recovery_at = dip_at + 1 * SECOND;

    let mut tick = 0u64;
    loop {
        let elapsed_ms = 200u64 * tick;
        let now = recovery_at + elapsed_ms * MILLI;
        if now - dip_at > DOWNGRADE_COOLDOWN {
            break;
        }
        let out = sel.pick_with_hysteresis(RECEIVER, &allow, &[], HIGH_KBPS, now);
        assert_eq!(
            out, downgraded,
            "cooldown must block upgrade at recovery +{elapsed_ms} ms",
        );
        tick += 1;
        assert!(tick < 200, "cooldown loop bounded — invariant guard");
    }

    let past_boundary = dip_at + DOWNGRADE_COOLDOWN + 1 * MILLI;
    let upgraded = sel.pick_with_hysteresis(RECEIVER, &allow, &[], HIGH_KBPS, past_boundary);
    assert_eq!(
        temporal(&upgraded),
        Some(1),
        "1 ms past cooldown boundary: upgrade must fire (streak already built)",
    );
}

#[test]
fn s5_oscillation_yields_one_downgrade_and_no_upgrades() {
    let mut sel = LayerSelector::new();
    let allow = allow_one();
    let t0 = T0;

    let seed = sel.pick_with_hysteresis(RECEIVER, &allow, &[], HIGH_KBPS, t0);
    assert_eq!(temporal(&seed), Some(1));

    let mut last = seed.clone();
    let mut downgrade_count = 0u32;
    let mut upgrade_count = 0u32;

    for s in 1u64..=60 {
        let bw = if s % 2 == 0 {
            HIGH_KBPS
        } else {
            LOW_KBPS
        };
        let now = t0 + s * SECOND;
        let out = sel.pick_with_hysteresis(RECEIVER, &allow, &[], bw, now);
        match (temporal(&last), temporal(&out)) {
            (Some(a), Some(b)) if b < a => downgrade_count += 1,
            (Some(a), Some(b)) if b > a => upgrade_count += 1,
            _ => {}
        }
        last = out;
    }

    assert_eq!(downgrade_count, 1, "exactly one downgrade (the first dip)",);
    assert_eq!(
        upgrade_count, 0,
        "no upgrades: cooldown + streak-reset absorb the oscillation",
    );
    assert_eq!(
        temporal(&last),
        Some(0),
        "final selection must be T0 after a thrash storm",
    );
}

#[test]
fn s6_bouncing_within_t1_headroom_band_yields_no_downgrade() {
    let mut sel = LayerSelector::new();
    let allow = allow_one();
    let t0 = T0;

    let centre: u32 = 600;
    let seed = sel.pick_with_hysteresis(RECEIVER, &allow, &[], centre, t0);
    assert_eq!(temporal(&seed), Some(1), "centre 600 kbps seeds at T1");

    let lo = (centre as f32 * 0.85).round() as u32;
    let hi = (centre as f32 * 1.15).round() as u32;

    {
        let mut sanity = LayerSelector::new();
        let edge_lo = sanity.pick_with_hysteresis(RECEIVER, &allow, &[], lo, t0);
        let edge_hi = sanity.pick_with_hysteresis(RECEIVER, &allow, &[], hi, t0);
        assert_eq!(
            temporal(&edge_lo),
            Some(1),
            "lo edge {lo} kbps must seed T1"
        );
        assert_eq!(
            temporal(&edge_hi),
            Some(1),
            "hi edge {hi} kbps must seed T1"
        );
    }

    for s in 1u64..=60 {
        let bw = if s % 2 == 0 { lo } else { hi };
        let now = t0 + s * SECOND;
        let out = sel.pick_with_hysteresis(RECEIVER, &allow, &[], bw, now);
        assert_eq!(
            out, seed,
            "+{s} s at {bw} kbps: bouncing within the T1 band must not downgrade",
        );
    }
}
