//! Automation scripts: parsing them, and generating those of benchmarks.

use velox_browser::automation::{
    generate_bench_script, needs_automation_script, parse_script, recommended_rss_interval_ms,
    recommended_timeout_secs, AutomationCommand, MAX_WAIT_MS, MEMORY_STABILIZE_MS,
    NAVIGATION_STEPS, TAB_CREATE_COUNT, TAB_RESUME_ROUNDS, TAB_SWITCH_EXTRA_TABS, TAB_SWITCH_REPEATS,
    TARGET_STABILIZED_RSS_SAMPLES,
};
use velox_browser::scenario::Scenario;

#[test]
fn parses_every_command_kind() {
    let script = "\
        open https://example.com/\n\
        switch 2\n\
        close 1\n\
        navigate https://example.com/other\n\
        wait 500\n\
        quit\n";
    let commands = parse_script(script).unwrap();
    assert_eq!(
        commands,
        vec![
            AutomationCommand::Open {
                url: "https://example.com/".to_owned()
            },
            AutomationCommand::Switch { index: 2 },
            AutomationCommand::Close { index: 1 },
            AutomationCommand::Navigate {
                url: "https://example.com/other".to_owned()
            },
            AutomationCommand::Wait { ms: 500 },
            AutomationCommand::Quit,
        ]
    );
}

#[test]
fn ignores_blank_lines_and_comments() {
    let script = "\n  \n# a comment\nquit\n   # trailing comment\n";
    assert_eq!(parse_script(script).unwrap(), vec![AutomationCommand::Quit]);
}

#[test]
fn empty_script_parses_to_no_commands() {
    assert_eq!(parse_script("").unwrap(), vec![]);
    assert_eq!(parse_script("\n\n\n").unwrap(), vec![]);
}

#[test]
fn schemeless_open_url_is_normalized_like_the_address_bar() {
    let commands = parse_script("open example.com\n").unwrap();
    assert_eq!(
        commands,
        vec![AutomationCommand::Open {
            url: "https://example.com/".to_owned()
        }]
    );
}

#[test]
fn loopback_open_url_gets_http_not_https() {
    let commands = parse_script("open 127.0.0.1:8080/page.html\n").unwrap();
    assert_eq!(
        commands,
        vec![AutomationCommand::Open {
            url: "http://127.0.0.1:8080/page.html".to_owned()
        }]
    );
}

#[test]
fn unknown_command_is_rejected_with_its_line_number() {
    let err = parse_script("open https://example.com/\nfrobnicate 1\n").unwrap_err();
    assert_eq!(err.line, 2);
    assert!(err.message.contains("frobnicate"));
}

#[test]
fn open_without_a_url_is_rejected() {
    let err = parse_script("open\n").unwrap_err();
    assert_eq!(err.line, 1);
}

#[test]
fn open_with_an_unparseable_url_is_rejected() {
    let err = parse_script("open javascript:alert(1)\n").unwrap_err();
    assert_eq!(err.line, 1);
    assert!(err.message.contains("javascript:alert(1)"));
}

#[test]
fn navigate_without_a_url_is_rejected() {
    let err = parse_script("navigate\n").unwrap_err();
    assert_eq!(err.line, 1);
}

#[test]
fn switch_without_an_index_is_rejected() {
    let err = parse_script("switch\n").unwrap_err();
    assert_eq!(err.line, 1);
}

#[test]
fn switch_with_a_non_numeric_index_is_rejected() {
    let err = parse_script("switch abc\n").unwrap_err();
    assert_eq!(err.line, 1);
}

#[test]
fn switch_with_a_negative_index_is_rejected() {
    let err = parse_script("switch -1\n").unwrap_err();
    assert_eq!(err.line, 1);
}

#[test]
fn close_without_an_index_is_rejected() {
    let err = parse_script("close\n").unwrap_err();
    assert_eq!(err.line, 1);
}

#[test]
fn wait_without_ms_is_rejected() {
    let err = parse_script("wait\n").unwrap_err();
    assert_eq!(err.line, 1);
}

#[test]
fn wait_beyond_the_cap_is_rejected() {
    let err = parse_script(&format!("wait {}\n", MAX_WAIT_MS + 1)).unwrap_err();
    assert_eq!(err.line, 1);
    assert!(err.message.contains(&MAX_WAIT_MS.to_string()));
}

#[test]
fn wait_exactly_at_the_cap_is_accepted() {
    let commands = parse_script(&format!("wait {MAX_WAIT_MS}\n")).unwrap();
    assert_eq!(commands, vec![AutomationCommand::Wait { ms: MAX_WAIT_MS }]);
}

#[test]
fn quit_with_extra_arguments_is_rejected() {
    let err = parse_script("quit now\n").unwrap_err();
    assert_eq!(err.line, 1);
}

#[test]
fn a_later_line_reports_its_own_number_not_the_first() {
    let err = parse_script("quit\nquit\nbogus\n").unwrap_err();
    assert_eq!(err.line, 3);
}

#[test]
fn does_not_panic_on_arbitrary_malformed_input() {
    for line in ["", "   ", "###", "open   ", "switch 99999999999999999999"] {
        let _ = parse_script(line);
    }
}

#[test]
fn startup_scenarios_need_no_automation_script() {
    assert_eq!(
        generate_bench_script(Scenario::ColdStartup, "http://127.0.0.1:8731/minimal.html"),
        None
    );
    assert_eq!(
        generate_bench_script(Scenario::WarmStartup, "http://127.0.0.1:8731/minimal.html"),
        None
    );
    assert_eq!(
        generate_bench_script(
            Scenario::FirstPageLoad,
            "http://127.0.0.1:8731/minimal.html"
        ),
        None
    );
}

#[test]
fn every_generated_script_parses_and_ends_with_quit() {
    let url = "http://127.0.0.1:8731/minimal.html";
    for scenario in Scenario::all() {
        let Some(script) = generate_bench_script(scenario, url) else {
            continue;
        };
        let commands = parse_script(&script).unwrap_or_else(|err| {
            panic!(
                "scenario {:?} generated an unparseable script: {}",
                scenario.id(),
                err.describe()
            )
        });
        assert_eq!(
            commands.last(),
            Some(&AutomationCommand::Quit),
            "scenario {:?} script did not end with quit",
            scenario.id()
        );
    }
}

#[test]
fn tab_count_memory_script_opens_exactly_tab_count_minus_one_tabs() {
    let url = "http://127.0.0.1:8731/minimal.html";
    let script = generate_bench_script(Scenario::TabCountMemory(5), url).unwrap();
    let commands = parse_script(&script).unwrap();
    let open_count = commands
        .iter()
        .filter(|c| matches!(c, AutomationCommand::Open { .. }))
        .count();
    assert_eq!(open_count, 4);
}

#[test]
fn tab_count_memory_of_one_opens_no_extra_tabs() {
    let url = "http://127.0.0.1:8731/minimal.html";
    let script = generate_bench_script(Scenario::TabCountMemory(1), url).unwrap();
    let commands = parse_script(&script).unwrap();
    assert!(!commands
        .iter()
        .any(|c| matches!(c, AutomationCommand::Open { .. })));
    assert_eq!(commands.last(), Some(&AutomationCommand::Quit));
}

#[test]
fn tab_switch_script_opens_extra_tabs_and_switches_repeatedly() {
    let url = "http://127.0.0.1:8731/minimal.html";
    let script = generate_bench_script(Scenario::TabSwitch, url).unwrap();
    let commands = parse_script(&script).unwrap();
    let open_count = commands
        .iter()
        .filter(|c| matches!(c, AutomationCommand::Open { .. }))
        .count();
    let switch_count = commands
        .iter()
        .filter(|c| matches!(c, AutomationCommand::Switch { .. }))
        .count();
    assert_eq!(open_count, TAB_SWITCH_EXTRA_TABS);
    assert_eq!(switch_count, TAB_SWITCH_REPEATS);
}

#[test]
fn navigation_script_navigates_to_distinct_urls() {
    let url = "http://127.0.0.1:8731/minimal.html";
    let script = generate_bench_script(Scenario::Navigation, url).unwrap();
    let commands = parse_script(&script).unwrap();
    let targets: Vec<&str> = commands
        .iter()
        .filter_map(|c| match c {
            AutomationCommand::Navigate { url } => Some(url.as_str()),
            _ => None,
        })
        .collect();
    assert_eq!(targets.len(), NAVIGATION_STEPS);
    let unique: std::collections::HashSet<_> = targets.iter().collect();
    assert_eq!(
        unique.len(),
        NAVIGATION_STEPS,
        "navigation targets must be distinct"
    );
}

#[test]
fn tab_create_script_opens_tab_create_count_tabs() {
    let url = "http://127.0.0.1:8731/minimal.html";
    let script = generate_bench_script(Scenario::TabCreate, url).unwrap();
    let commands = parse_script(&script).unwrap();
    let open_count = commands
        .iter()
        .filter(|c| matches!(c, AutomationCommand::Open { .. }))
        .count();
    assert_eq!(open_count, TAB_CREATE_COUNT);
}

#[test]
fn needs_automation_script_agrees_with_generate_bench_script() {
    let url = "http://127.0.0.1:8731/minimal.html";
    for scenario in Scenario::all() {
        assert_eq!(
            needs_automation_script(scenario),
            generate_bench_script(scenario, url).is_some(),
            "mismatch for {:?}",
            scenario.id()
        );
    }
}

#[test]
fn recommended_timeout_is_five_seconds_for_startup_scenarios() {
    assert_eq!(recommended_timeout_secs(Scenario::ColdStartup), 5);
    assert_eq!(recommended_timeout_secs(Scenario::WarmStartup), 5);
    assert_eq!(recommended_timeout_secs(Scenario::FirstPageLoad), 5);
}

#[test]
fn recommended_timeout_grows_with_tab_count() {
    let small = recommended_timeout_secs(Scenario::TabCountMemory(1));
    let large = recommended_timeout_secs(Scenario::TabCountMemory(50));
    assert!(
        large > small,
        "expected tabs_50 timeout ({large}s) > tabs_1 timeout ({small}s)"
    );
}

#[test]
fn recommended_timeout_is_always_positive() {
    for scenario in Scenario::all() {
        let secs = recommended_timeout_secs(scenario);
        assert!(secs > 0, "scenario {:?} had a zero timeout", scenario.id());
    }
}

#[test]
fn startup_scenarios_keep_the_default_rss_interval() {
    assert_eq!(recommended_rss_interval_ms(Scenario::ColdStartup), None);
    assert_eq!(recommended_rss_interval_ms(Scenario::WarmStartup), None);
    assert_eq!(recommended_rss_interval_ms(Scenario::FirstPageLoad), None);
}

#[test]
fn non_memory_tab_scenarios_keep_the_default_rss_interval() {
    assert_eq!(recommended_rss_interval_ms(Scenario::Navigation), None);
    assert_eq!(recommended_rss_interval_ms(Scenario::TabCreate), None);
    assert_eq!(recommended_rss_interval_ms(Scenario::TabSwitch), None);
}

#[test]
fn tab_count_memory_scenarios_get_an_explicit_short_interval() {
    for &n in &Scenario::TAB_COUNTS {
        let interval = recommended_rss_interval_ms(Scenario::TabCountMemory(n))
            .unwrap_or_else(|| panic!("tabs_{n} should override the RSS interval"));
        assert!(
            interval > 0,
            "tabs_{n} interval must be positive, got {interval}"
        );
        assert!(
            interval * 2 <= MEMORY_STABILIZE_MS,
            "tabs_{n} interval {interval}ms leaves room for fewer than 2 \
             samples in a {MEMORY_STABILIZE_MS}ms settle window"
        );
    }
}

#[test]
fn tab_count_memory_interval_is_independent_of_tab_count() {
    let intervals: Vec<u64> = Scenario::TAB_COUNTS
        .iter()
        .map(|&n| recommended_rss_interval_ms(Scenario::TabCountMemory(n)).unwrap())
        .collect();
    assert!(
        intervals.windows(2).all(|pair| pair[0] == pair[1]),
        "expected the same interval for every tab count, got {intervals:?}"
    );
}

#[test]
fn tab_count_memory_interval_matches_the_documented_formula() {
    assert_eq!(
        recommended_rss_interval_ms(Scenario::TabCountMemory(1)),
        Some(MEMORY_STABILIZE_MS / TARGET_STABILIZED_RSS_SAMPLES)
    );
}

#[test]
fn an_error_describes_its_line() {
    let err = parse_script("quit\nopen\n").unwrap_err();
    assert_eq!(err.describe(), format!("2行目: {}", err.message));
}

#[test]
fn words_that_are_no_command_are_quoted_in_the_error() {
    let err = parse_script("fly\"away\n").unwrap_err();
    assert!(err.message.contains("\"fly\\\"away\""), "{}", err.message);
}

#[test]
fn a_timeout_is_longer_than_the_waits_of_the_script() {
    let url = "http://127.0.0.1:8731/minimal.html";
    for scenario in Scenario::all() {
        if let Some(script) = generate_bench_script(scenario, url) {
            let waited: u64 = parse_script(&script)
                .unwrap()
                .iter()
                .map(|c| match c {
                    AutomationCommand::Wait { ms } => *ms,
                    _ => 0,
                })
                .sum();
            assert!(recommended_timeout_secs(scenario) * 1_000 > waited, "{}", scenario.id());
        }
    }
}

#[test]
fn a_script_can_suspend_a_tab_and_mark_the_measured_phase() {
    assert_eq!(
        parse_script("suspend 3\nmark\n").unwrap(),
        vec![AutomationCommand::Suspend { index: 3 }, AutomationCommand::Mark]
    );
    let error = parse_script("quit\nmark now\n").unwrap_err();
    assert_eq!(error.line, 2);
    assert_eq!(error.message, "mark は引数を取りません: \"now\"");
    let error = parse_script("suspend\n").unwrap_err();
    assert_eq!(error.message, "suspend には index 引数が必要です");
    assert!(parse_script("suspend x\n").is_err());
}

fn commands_for(scenario: Scenario) -> Vec<AutomationCommand> {
    let url = "http://127.0.0.1:8731/minimal.html";
    parse_script(&generate_bench_script(scenario, url).unwrap()).unwrap()
}

#[test]
fn resuming_suspends_a_tab_and_switches_back_to_it() {
    let commands = commands_for(Scenario::TabResume);
    let mut suspended = 0;
    for (i, command) in commands.iter().enumerate() {
        if let AutomationCommand::Suspend { index } = command {
            suspended += 1;
            assert_eq!(commands[i + 2], AutomationCommand::Switch { index: *index });
        }
    }
    assert_eq!(suspended, TAB_RESUME_ROUNDS);
}

#[test]
fn a_setup_is_followed_by_one_mark() {
    for (scenario, opened_before) in [
        (Scenario::TabCreateAt(5), 4),
        (Scenario::TabSwitchAt(5), 4),
        (Scenario::TabCountMemoryHold(5), 4),
    ] {
        let commands = commands_for(scenario);
        let mark = commands.iter().position(|c| *c == AutomationCommand::Mark).unwrap();
        let opened = commands[..mark]
            .iter()
            .filter(|c| matches!(c, AutomationCommand::Open { .. }))
            .count();
        assert_eq!(opened, opened_before, "{:?}", scenario);
        assert!(!commands[mark + 1..].contains(&AutomationCommand::Mark), "{:?}", scenario);
    }
}

#[test]
fn quit_stands_at_the_end_and_nowhere_else() {
    for scenario in Scenario::all() {
        if needs_automation_script(scenario) {
            let commands = commands_for(scenario);
            let quits: Vec<usize> = commands
                .iter()
                .enumerate()
                .filter(|(_, c)| **c == AutomationCommand::Quit)
                .map(|(i, _)| i)
                .collect();
            assert_eq!(quits, [commands.len() - 1], "{:?}", scenario);
        }
    }
}
