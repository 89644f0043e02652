use spoonstill_app::capacity::{
    budget_megabytes, budget_within, plan_within, pressure_within, segment_memory_bytes,
    total_memory_bytes,
};

/// The prescale canvas of each landscape size, smallest first: 720p, 1080p,
/// 1440p, 2160p.
const PRESCALE: [(u32, u32); 4] = [(3840, 2160), (5760, 3240), (7680, 4320), (11520, 6480)];

const HD: (u32, u32) = (5760, 3240);
const UHD: (u32, u32) = (11520, 6480);

/// Eight gigabytes, 70% of which is the budget these tests reason about.
const EIGHT_GB_BUDGET: Option<u64> = Some(5_600 * 1024 * 1024);

fn cost((width, height): (u32, u32)) -> u64 {
    segment_memory_bytes(width, height)
}

#[test]
fn the_model_is_never_under_what_was_measured() {
    let measured_mb = [369_u64, 768, 1219, 2630];
    for (canvas, measured) in PRESCALE.into_iter().zip(measured_mb) {
        let modelled = cost(canvas) / (1024 * 1024);
        assert!(modelled >= measured, "{canvas:?}: {modelled} MB against {measured} MB");
        assert!(modelled >= measured + measured / 50, "{canvas:?}: less than 2% headroom");
        assert!(modelled <= measured * 3 / 2, "{canvas:?}: strands capacity");
    }
}

#[test]
fn four_k_costs_more_per_worker_than_1080p() {
    assert!(cost(UHD) > cost(HD) * 3);
}

#[test]
fn an_aspect_is_not_cheaper_than_its_rotation() {
    let landscape = segment_memory_bytes(5760, 3240);
    let portrait = segment_memory_bytes(3240, 5760);
    assert_eq!(landscape, portrait);
}

#[test]
fn a_small_machine_gets_fewer_workers_at_4k_and_the_same_at_1080p() {
    let uhd = plan_within(UHD.0, UHD.1, EIGHT_GB_BUDGET, 4);
    assert_eq!(uhd.jobs, 2);
    assert!(uhd.limited_by_memory());

    let hd = plan_within(HD.0, HD.1, EIGHT_GB_BUDGET, 4);
    assert_eq!(hd.jobs, 4);
    assert!(!hd.limited_by_memory());
}

#[test]
fn the_memory_cap_never_exceeds_the_core_derived_answer() {
    for budget in [EIGHT_GB_BUDGET, Some(u64::from(u32::MAX)), None] {
        for (width, height) in PRESCALE {
            let plan = plan_within(width, height, budget, 4);
            assert!(plan.jobs <= plan.by_cores);
            assert!(plan.jobs >= 1);
        }
    }
}

#[test]
fn a_bigger_frame_never_gets_more_workers() {
    let mut previous = usize::MAX;
    let mut seen = std::collections::BTreeSet::new();
    for (width, height) in PRESCALE {
        let jobs = plan_within(width, height, EIGHT_GB_BUDGET, 4).jobs;
        assert!(jobs <= previous, "{width}x{height} got {jobs}, more than {previous}");
        previous = jobs;
        seen.insert(jobs);
    }
    assert!(seen.len() > 1);
}

#[test]
fn a_machine_too_small_for_one_worker_still_renders() {
    let tiny = plan_within(UHD.0, UHD.1, Some(512 * 1024 * 1024), 4);
    assert_eq!(tiny.jobs, 1);
}

#[test]
fn the_automatic_count_does_not_warn_about_itself() {
    for budget in [EIGHT_GB_BUDGET, Some(24 * 1024 * 1024 * 1024)] {
        for (width, height) in PRESCALE {
            let plan = plan_within(width, height, budget, 4);
            if plan.jobs > 1 {
                assert!(pressure_within(width, height, budget, plan.jobs).is_none());
            }
        }
    }
}

#[test]
fn an_extravagant_request_is_reported_with_a_number_to_use_instead() {
    let budget = budget_within(None, total_memory_bytes());
    let Some(pressure) = pressure_within(UHD.0, UHD.1, budget, 512) else {
        assert!(budget.is_none(), "512 4K workers fit in this budget?");
        return;
    };
    assert_eq!(pressure.jobs, 512);
    assert!(pressure.needed > pressure.budget);
    assert!(pressure.fits < 512);
}

#[test]
fn the_machine_reports_memory_or_nothing_never_zero() {
    assert_ne!(total_memory_bytes(), Some(0));
}

#[test]
fn a_budget_in_megabytes_is_whole_and_above_zero() {
    assert_eq!(budget_megabytes(" 2048 "), Some(2048));
    assert_eq!(budget_megabytes("0"), None);
    assert_eq!(budget_megabytes("lots"), None);
    assert_eq!(budget_megabytes("-5"), None);
    assert_eq!(budget_megabytes(""), None);
}

#[test]
fn an_asked_budget_wins_over_the_share_of_the_machine() {
    assert_eq!(budget_within(Some(2), Some(1000)), Some(2 * 1024 * 1024));
    assert_eq!(budget_within(None, Some(1000)), Some(700));
    assert_eq!(budget_within(None, Some(1099)), Some(700));
    assert_eq!(budget_within(None, None), None);
}

#[test]
fn one_worker_at_1080p_costs_the_fitted_line() {
    assert_eq!(segment_memory_bytes(5760, 3240), 192 * 1024 * 1024 + 5760 * 3240 * 36);
}

#[test]
fn a_warning_names_how_many_would_fit() {
    let pressure = pressure_within(UHD.0, UHD.1, EIGHT_GB_BUDGET, 4).expect("4K x4 overcommits");
    assert_eq!(pressure.needed, cost(UHD) * 4);
    assert_eq!(pressure.fits, 2);
    assert_eq!(pressure.budget, 5_600 * 1024 * 1024);
    assert!(pressure_within(UHD.0, UHD.1, None, 512).is_none());
}

use spoonstill_app::capacity::memory_answer;

#[test]
fn a_machine_that_reports_no_memory_is_one_that_will_not_say() {
    assert_eq!(memory_answer(0), None);
    assert_eq!(memory_answer(8 * 1024 * 1024 * 1024), Some(8 * 1024 * 1024 * 1024));
}

#[test]
fn the_budget_decided_exactly_when_the_count_fell_below_the_cores() {
    for (width, height) in PRESCALE {
        for budget in [EIGHT_GB_BUDGET, Some(24 * 1024 * 1024 * 1024), None] {
            let plan = plan_within(width, height, budget, 4);
            assert_eq!(plan.limited_by_memory(), plan.jobs < plan.by_cores);
        }
    }
}
