use kingdom_citymap::scene::settlement_key;
use kingdom_citymap::viewer::{
    reaches, rank, Activity, LodLevel, RaisePlan, RaiseStage, Step, TownActivity, SLICE,
};

/// Every step, in build order.
const ALL_STEPS: [Step; 8] = [
    Step::Base,
    Step::Towns,
    Step::Wards,
    Step::Plazas,
    Step::Roads,
    Step::Holdings,
    Step::Groves,
    Step::Names,
];

/// Every stage, in build order.
const ALL_STAGES: [RaiseStage; 5] = [
    RaiseStage::Ground,
    RaiseStage::Roads,
    RaiseStage::Holdings,
    RaiseStage::Groves,
    RaiseStage::Names,
];

/// A world of one disk and `plazas` squares, as item counts in build order.
fn world(plazas: usize) -> Vec<usize> {
    vec![1, 0, 0, plazas, 0, 0, 0, 0]
}

fn count(world: &[usize], step: Step) -> usize {
    world[ALL_STEPS.iter().position(|each| *each == step).unwrap()]
}

/// The next slice a budget of `budget` trees' weight affords.
fn take_worth(plan: &mut RaisePlan, budget: f32) -> Option<(Step, std::ops::Range<usize>)> {
    let affordable: Vec<usize> = ALL_STEPS
        .iter()
        .map(|step| (budget / (step.weight() as f32).max(f32::EPSILON)) as usize)
        .collect();
    plan.take_affordable(&affordable).map(|(step, start, end)| (step, start..end))
}

fn take(plan: &mut RaisePlan) -> Option<(Step, std::ops::Range<usize>)> {
    plan.take().map(|(step, start, end)| (step, start..end))
}

fn working(town: &str, count: usize) -> TownActivity {
    TownActivity {
        town: town.to_owned(),
        working: count,
    }
}

#[test]
fn a_town_nobody_reported_is_a_town_with_nothing_running() {
    let activity = Activity(vec![working("forge", 2)]);
    assert_eq!(activity.working_in("forge"), 2);
    assert_eq!(activity.working_in("archive"), 0);
    assert!(!activity.is_quiet());
    assert!(Activity::default().is_quiet());
}

#[test]
fn the_first_report_for_a_town_is_the_one_read() {
    let activity = Activity(vec![working("forge", 2), working("forge", 7)]);
    assert_eq!(activity.working_in("forge"), 2);
}

#[test]
fn a_tier_shows_everything_at_or_below_it() {
    assert!(reaches(LodLevel::Districts, LodLevel::Districts));
    assert!(!reaches(LodLevel::Districts, LodLevel::Architecture));
    assert!(reaches(LodLevel::Architecture, LodLevel::Districts));
    assert!(reaches(LodLevel::Architecture, LodLevel::Architecture));
    assert!(!reaches(LodLevel::Architecture, LodLevel::FileDetail));
    assert!(reaches(LodLevel::FileDetail, LodLevel::FileDetail));
}

#[test]
fn buildings_stay_visible_at_every_tier() {
    for tier in [
        LodLevel::Districts,
        LodLevel::Architecture,
        LodLevel::FileDetail,
    ] {
        assert!(reaches(tier, LodLevel::Districts));
    }
}

#[test]
fn tiers_and_stages_have_names() {
    assert_eq!(LodLevel::default(), LodLevel::Districts);
    assert_eq!(LodLevel::FileDetail.label(), "FILE DETAIL");
    assert_eq!(rank(LodLevel::Architecture), 1);
    assert_eq!(RaiseStage::Groves.label(), "Planting the groves");
    assert_eq!(Step::Plazas.stage(), RaiseStage::Ground);
    assert_eq!(Step::Holdings.stage(), RaiseStage::Holdings);
    assert_eq!(Step::Names.stage().label(), "Painting the names");
}

#[test]
fn a_settlement_is_keyed_by_its_top_level_folders() {
    let districts = vec![
        (0, "src".to_string()),
        (1, "src/engine".to_string()),
        (0, "docs".to_string()),
    ];
    assert_eq!(settlement_key(&districts), "repo-city/src/docs");
    assert_eq!(settlement_key(&Vec::new()), "repo-city");
}

#[test]
fn every_item_is_built_once_and_in_order() {
    let world = world(SLICE * 2 + 7);
    let mut plan = RaisePlan::for_counts(&world);

    let mut seen: Vec<(Step, usize)> = Vec::new();
    while let Some((step, slice)) = take(&mut plan) {
        assert!(
            !slice.is_empty(),
            "an empty slice costs a frame for nothing"
        );
        for index in slice {
            seen.push((step, index));
        }
    }

    for step in ALL_STEPS {
        let built: Vec<usize> = seen
            .iter()
            .filter(|(each, _)| *each == step)
            .map(|(_, index)| *index)
            .collect();
        let wanted: Vec<usize> = (0..count(&world, step)).collect();
        assert_eq!(built, wanted, "{step:?} was not built exactly once, in order");
    }

    let order: Vec<Step> = ALL_STEPS
        .into_iter()
        .filter(|step| count(&world, *step) > 0)
        .collect();
    let mut walked: Vec<Step> = Vec::new();
    for (step, _) in &seen {
        if walked.last() != Some(step) {
            walked.push(*step);
        }
    }
    assert_eq!(walked, order);
}

#[test]
fn an_all_but_empty_world_finishes_without_dividing_by_zero() {
    let mut plan = RaisePlan::for_counts(&world(0));
    assert_eq!(take(&mut plan), Some((Step::Base, 0..1)));
    assert_eq!(take(&mut plan), None);
    assert!(plan.finished());
}

#[test]
fn the_caption_keeps_up_with_the_bar() {
    let world = world(SLICE + 1);
    let mut plan = RaisePlan::for_counts(&world);

    assert_eq!(plan.stage(), RaiseStage::Ground, "the disk comes first");
    while take(&mut plan).is_some() {
        if !plan.finished() {
            assert_eq!(plan.stage(), RaiseStage::Ground);
        }
    }
}

#[test]
fn every_stage_is_reached_by_some_step() {
    for stage in ALL_STAGES {
        assert!(
            ALL_STEPS.into_iter().any(|step| step.stage() == stage),
            "nothing builds {stage:?}"
        );
    }
}

#[test]
fn a_frame_takes_only_what_its_budget_affords() {
    let world = world(100);
    let mut plan = RaisePlan::for_counts(&world);

    assert_eq!(take_worth(&mut plan, 1.0), Some((Step::Base, 0..1)));

    assert_eq!(Step::Plazas.weight(), 2);
    assert_eq!(take_worth(&mut plan, 14.0), Some((Step::Plazas, 0..7)));
    assert_eq!(take_worth(&mut plan, 14.0), Some((Step::Plazas, 7..14)));

    assert_eq!(take_worth(&mut plan, 100_000.0), Some((Step::Plazas, 14..62)));
}

#[test]
fn an_expensive_step_costs_a_frame_more_of_its_budget() {
    let cheap = {
        let mut world = world(0);
        world[6] = SLICE;
        let mut plan = RaisePlan::for_counts(&world);
        take_worth(&mut plan, 48.0);
        take_worth(&mut plan, 48.0)
    };
    let dear = {
        let mut world = world(0);
        world[7] = SLICE;
        let mut plan = RaisePlan::for_counts(&world);
        take_worth(&mut plan, 48.0);
        take_worth(&mut plan, 48.0)
    };

    let (_, cheap) = cheap.expect("there is scenery to plant");
    let (_, dear) = dear.expect("there are names to paint");
    assert_eq!(cheap.len(), 48, "a tree weighs one");
    assert_eq!(dear.len(), 6, "a name weighs eight");
}

#[test]
fn a_frame_with_nothing_left_to_spend_still_cannot_stall_the_raise() {
    let mut plan = RaisePlan::for_counts(&world(3));
    let mut taken = 0;
    while let Some((_, slice)) = take_worth(&mut plan, 0.0) {
        assert!(!slice.is_empty(), "an empty slice would loop forever");
        taken += slice.len();
        assert!(taken <= 4, "more was built than the world holds");
    }
    assert!(plan.finished());
}

#[test]
fn a_slice_ends_where_its_step_does() {
    let mut plan = RaisePlan::for_counts(&vec![1, 0, 3, 0, 0, 0, 0, 0]);
    assert_eq!(take(&mut plan), Some((Step::Base, 0..1)));
    assert_eq!(plan.stage(), RaiseStage::Ground);
    assert_eq!(take(&mut plan), Some((Step::Wards, 0..3)));
    assert_eq!(take(&mut plan), None);
    assert_eq!(plan.stage(), RaiseStage::Names);
}
