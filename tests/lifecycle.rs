use mycelium::fruiting::{needs_luck, plan_fruiting, settle_attempts, FruitingPlan};
use mycelium::types::{StepQuery, ZoneType};
use mycelium::weather::Season;

#[test]
fn rich_site_spawns_normally() {
    let p = plan_fruiting(3, 5, true, false);
    assert_eq!(p, FruitingPlan { spawn: Some(false), attempts: None });
    assert_eq!(settle_attempts(3, p, true), 0);
}

#[test]
fn poor_site_counts_a_failure() {
    let p = plan_fruiting(1, 5, false, true);
    assert_eq!(p, FruitingPlan { spawn: None, attempts: Some(2) });
    assert_eq!(settle_attempts(1, p, false), 2);
}

#[test]
fn fallback_spawn_once_failures_saturate() {
    let p = plan_fruiting(4, 5, false, true);
    assert_eq!(p, FruitingPlan { spawn: Some(true), attempts: Some(5) });
    assert_eq!(settle_attempts(4, p, true), 0);
    let q = plan_fruiting(5, 5, false, false);
    assert_eq!(q, FruitingPlan { spawn: None, attempts: Some(5) });
    assert_eq!(settle_attempts(5, q, false), 5);
}

#[test]
fn failures_saturate_at_u32_max() {
    let p = plan_fruiting(u32::MAX, 0, false, false);
    assert_eq!(p.attempts, Some(1));
    let q = plan_fruiting(u32::MAX, u32::MAX, false, true);
    assert_eq!(q, FruitingPlan { spawn: Some(true), attempts: Some(u32::MAX) });
}

#[test]
fn luck_is_drawn_only_between_thresholds() {
    assert!(needs_luck(false, true));
    assert!(!needs_luck(true, true));
    assert!(!needs_luck(false, false));
}

#[test]
fn seasons_cycle_by_quarter() {
    assert_eq!(Season::of_quarter(0), Season::Spring);
    assert_eq!(Season::of_quarter(1), Season::Summer);
    assert_eq!(Season::of_quarter(6), Season::Autumn);
    assert_eq!(Season::of_quarter(7), Season::Winter);
    assert_eq!(Season::of_quarter(8), Season::Spring);
}

#[test]
fn step_query_defaults_to_one() {
    assert_eq!(StepQuery { steps: None }.steps_requested(), 1);
    assert_eq!(StepQuery { steps: Some(12) }.steps_requested(), 12);
    assert_ne!(ZoneType::Toxic, ZoneType::Open);
}
