//! Benchmark scenarios and their ids.

use velox_browser::scenario::Scenario;

#[test]
fn every_scenario_round_trips_through_its_id() {
    for scenario in Scenario::all() {
        let id = scenario.id();
        assert_eq!(Scenario::parse(&id), Some(scenario), "id was {id:?}");
    }
}

#[test]
fn tabs_hold_is_not_swallowed_by_tabs() {
    assert_eq!(
        Scenario::parse("tabs_hold_10"),
        Some(Scenario::TabCountMemoryHold(10))
    );
    assert_eq!(
        Scenario::parse("tabs_10"),
        Some(Scenario::TabCountMemory(10))
    );
    assert_eq!(Scenario::parse("tabs_hold_7"), None);
    assert_eq!(Scenario::parse("tabs_hold_"), None);
}

#[test]
fn parse_rejects_unknown_tab_counts() {
    assert_eq!(Scenario::parse("tabs_7"), None);
    assert_eq!(Scenario::parse("tabs_"), None);
    assert_eq!(Scenario::parse("not_a_scenario"), None);
    assert_eq!(Scenario::parse("tab_create_7"), None);
    assert_eq!(Scenario::parse("tab_switch_"), None);
}

#[test]
fn unparameterized_and_parameterized_ids_stay_distinct() {
    assert_eq!(Scenario::parse("tab_create"), Some(Scenario::TabCreate));
    assert_eq!(Scenario::parse("tab_switch"), Some(Scenario::TabSwitch));
    assert_eq!(
        Scenario::parse("tab_create_5"),
        Some(Scenario::TabCreateAt(5))
    );
    assert_eq!(
        Scenario::parse("tab_switch_20"),
        Some(Scenario::TabSwitchAt(20))
    );
}

#[test]
fn all_covers_eight_fixed_plus_four_parameterized_families() {
    assert_eq!(Scenario::all().len(), 8 + 4 * Scenario::TAB_COUNTS.len());
}

#[test]
fn every_scenario_is_unattended_since_112() {
    assert!(Scenario::all().into_iter().all(Scenario::is_unattended));
}

#[test]
fn ids_are_distinct() {
    let mut ids: Vec<String> = Scenario::all().into_iter().map(Scenario::id).collect();
    let count = ids.len();
    ids.sort();
    ids.dedup();
    assert_eq!(ids.len(), count);
}
