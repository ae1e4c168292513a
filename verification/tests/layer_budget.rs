//! Budgets and what they buy.
use sfu::ids::SessionId;
use sfu::layer_selector::{
    compare_selections, cumulative_kbps_for, has_upgrade_headroom, LayerSelection, LayerSelector,
    SelectionDelta, DEFAULT_MAX_VIDEO_KBPS,
};
use sfu::subscription::{AllowSet, LayerPref};

fn allow(ids: &[SessionId]) -> AllowSet {
    let mut a = AllowSet::new();
    for &sid in ids {
        a.video.insert(sid, LayerPref::default());
    }
    a
}

#[test]
fn budgets_agree_with_single_precision() {
    let selector = LayerSelector::new();
    let mut x: u32 = 7;
    for i in 0..20_000u32 {
        x = x.wrapping_mul(1_664_525).wrapping_add(1_013_904_223);
        let kbps = x >> (i % 32);
        let expected = ((kbps as f32) * 0.85f32) as u32;
        assert_eq!(
            selector.effective_budget_kbps(kbps),
            expected.min(DEFAULT_MAX_VIDEO_KBPS),
            "{kbps} kbps"
        );
    }
}

#[test]
fn headroom_agrees_with_single_precision() {
    let mut selection = LayerSelection::new();
    for sid in 0..9 {
        selection.forward.insert((sid, 0), (sid % 3) as u32);
        let total = selection.total_kbps();
        let edge = (total as f32 * 1.20f32) as u32;
        for budget in edge.saturating_sub(3)..edge + 3 {
            assert_eq!(
                has_upgrade_headroom(budget, &selection),
                budget as f32 >= total as f32 * 1.20f32,
                "{budget} over {total}"
            );
        }
    }
}

#[test]
fn layers_cost_what_they_add_up_to() {
    assert_eq!(cumulative_kbps_for(0), Some(128));
    assert_eq!(cumulative_kbps_for(1), Some(384));
    assert_eq!(cumulative_kbps_for(2), Some(896));
    assert_eq!(cumulative_kbps_for(3), None);
}

#[test]
fn a_choice_never_costs_more_than_its_budget() {
    let selector = LayerSelector::new();
    let ids: Vec<SessionId> = (2..12).collect();
    for kbps in (0..3_000).step_by(37) {
        let choice = selector.pick_layers(1, &allow(&ids), &[7, 3], kbps);
        assert!(choice.total_kbps() <= selector.effective_budget_kbps(kbps), "{kbps} kbps");
    }
}

#[test]
fn more_bandwidth_loses_nothing() {
    let selector = LayerSelector::new();
    let ids: Vec<SessionId> = (2..8).collect();
    let mut last = LayerSelection::new();
    for kbps in (0..3_000).step_by(13) {
        let choice = selector.pick_layers(1, &allow(&ids), &[5], kbps);
        for sid in 2..8 {
            assert!(choice.forward.get(&(sid, 0)) >= last.forward.get(&(sid, 0)), "{kbps} kbps");
        }
        last = choice;
    }
}

#[test]
fn base_layers_come_before_enhancements() {
    let selector = LayerSelector::new();
    let ids: Vec<SessionId> = (2..8).collect();
    for kbps in (0..3_000).step_by(11) {
        let choice = selector.pick_layers(1, &allow(&ids), &[], kbps);
        let enhanced = (2..8).any(|sid| choice.forward.get(&(sid, 0)) > Some(0));
        assert!(!enhanced || choice.forward.len() == 6, "{kbps} kbps");
    }
}

#[test]
fn identical_choices_are_equal() {
    let selector = LayerSelector::new();
    let a = selector.pick_layers(1, &allow(&[4, 2, 3]), &[3], 1_000);
    let b = selector.pick_layers(1, &allow(&[2, 3, 4]), &[3], 1_000);
    assert_eq!(compare_selections(&a, &b), SelectionDelta::Identical);
    assert_eq!(a, b);
}
