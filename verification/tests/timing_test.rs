use tracegrep::commands::build_index::index_message;
use tracegrep::graph_cache::LoadGraphMode;
use tracegrep::timing::{stage_index, stage_name, TimingCollector, DURATION_MAX_NANOS, SUMMED_STAGES};

#[test]
fn stage_names_and_positions_agree() {
    for i in 0..SUMMED_STAGES {
        assert_eq!(stage_index(stage_name(i)), Some(i));
    }
    assert_eq!(stage_name(0), "head_hash");
    assert_eq!(stage_name(11), "output");
    assert_eq!(stage_index("total"), None);
}

#[test]
fn enabled_collector_sums_each_stage() {
    let mut t = TimingCollector::new(true);
    assert!(t.enabled());
    t.add("rg_run", 5);
    t.add("rg_run", 7);
    t.add("output", 1);
    t.add("not_a_stage", 100);
    assert_eq!(t.stage_total(stage_index("rg_run").unwrap()), 12);
    assert_eq!(t.stage_total(stage_index("output").unwrap()), 1);
    assert_eq!(t.stage_total(0), 0);
}

#[test]
fn disabled_collector_keeps_nothing() {
    let mut t = TimingCollector::disabled();
    assert!(!t.enabled());
    t.add("rg_run", 5);
    let value = t.measure("graph_rebuild", || 41 + 1);
    assert_eq!(value, 42);
    for i in 0..SUMMED_STAGES {
        assert_eq!(t.stage_total(i), 0);
    }
}

#[test]
fn measure_hands_back_the_result() {
    let mut t = TimingCollector::new(true);
    let text = t.measure("merge_graphs", || "done".to_string());
    assert_eq!(text, "done");
    assert_eq!(t.stage_total(0), 0);
}

#[test]
fn build_index_messages() {
    assert_eq!(index_message(LoadGraphMode::FullRebuild, "/repo"), "Built index for /repo");
    assert_eq!(index_message(LoadGraphMode::Incremental, "/repo"), "Updated index for /repo");
    assert_eq!(index_message(LoadGraphMode::Reused, "/repo"), "Index already up to date for /repo");
}

#[test]
fn add_capped_saturates_at_the_duration_limit() {
    let mut t = TimingCollector::new(true);
    let i = stage_index("rg_run").unwrap();
    t.add_capped("rg_run", 40);
    t.add_capped("rg_run", 2);
    assert_eq!(t.stage_total(i), 42);
    t.add_capped("rg_run", DURATION_MAX_NANOS);
    assert_eq!(t.stage_total(i), DURATION_MAX_NANOS);
    t.add_capped("rg_run", 5);
    assert_eq!(t.stage_total(i), DURATION_MAX_NANOS);
    t.add_capped("no_such_stage", 5);
    assert_eq!(t.stage_total(0), 0);
    let mut d = TimingCollector::disabled();
    d.add_capped("rg_run", 9);
    assert_eq!(d.stage_total(i), 0);
}
