//! What processes use, and what the system says of them.

use std::collections::HashMap;

use velox_browser::metrics::{
    build_sample, collect_descendants, cpu_nanos_between, filetime_nanos, filetime_ticks,
    kilobytes, parse_cpu_nanos, parse_mem_total_bytes, parse_ps_output, parse_pss_kb, parse_status,
    ProcInfo, ProcStatus, RssError, RssSample,
};

#[test]
fn mem_total_is_read_as_kilobytes() {
    let meminfo = "\
MemTotal:       16307556 kB
MemFree:         1234567 kB
MemAvailable:    8901234 kB
";
    assert_eq!(
        parse_mem_total_bytes(meminfo),
        Some(16_307_556 * 1024),
        "kB は 1024 倍でバイトにする"
    );
}

#[test]
fn mem_total_ignores_similar_keys() {
    let meminfo = "SwapTotal:  1000 kB\nMemTotalish: 2000 kB\nMemTotal: 4 kB\n";
    assert_eq!(parse_mem_total_bytes(meminfo), Some(4096));
}

#[test]
fn mem_total_without_a_unit_is_not_guessed() {
    assert_eq!(parse_mem_total_bytes("MemTotal: 16307556\n"), None);
    assert_eq!(parse_mem_total_bytes("MemTotal: 16307556 MB\n"), None);
    assert_eq!(parse_mem_total_bytes("MemTotal: kB\n"), None);
}

#[test]
fn mem_total_accepts_the_unit_case_insensitively() {
    assert_eq!(parse_mem_total_bytes("MemTotal: 4 KB\n"), Some(4096));
}

#[test]
fn mem_total_absent_or_unparsable_is_none() {
    assert_eq!(parse_mem_total_bytes(""), None);
    assert_eq!(parse_mem_total_bytes("MemFree: 100 kB\n"), None);
    assert_eq!(parse_mem_total_bytes("MemTotal: not-a-number kB\n"), None);
    assert_eq!(parse_mem_total_bytes("no colon here\n"), None);
}

#[test]
fn mem_total_does_not_overflow_on_an_absurd_value() {
    let meminfo = format!("MemTotal: {} kB\n", u64::MAX);
    assert_eq!(parse_mem_total_bytes(&meminfo), None);
}

#[test]
fn build_sample_sums_rss_over_whole_subtree() {
    let mut processes = HashMap::new();
    processes.insert(
        1,
        ProcInfo {
            ppid: 0,
            rss_bytes: 1000,
            pss_bytes: None,
            cpu_nanos: None,
        },
    );
    processes.insert(
        2,
        ProcInfo {
            ppid: 1,
            rss_bytes: 2000,
            pss_bytes: None,
            cpu_nanos: None,
        },
    );
    processes.insert(
        3,
        ProcInfo {
            ppid: 2,
            rss_bytes: 3000,
            pss_bytes: None,
            cpu_nanos: None,
        },
    );
    processes.insert(
        4,
        ProcInfo {
            ppid: 0,
            rss_bytes: 4000,
            pss_bytes: None,
            cpu_nanos: None,
        },
    );

    let sample = build_sample(1, &processes).unwrap();
    assert_eq!(sample.root_pid, 1);
    assert_eq!(sample.process_count, 3);
    assert_eq!(sample.total_rss_bytes, 6000);
}

#[test]
fn build_sample_root_with_no_children_counts_only_itself() {
    let mut processes = HashMap::new();
    processes.insert(
        5,
        ProcInfo {
            ppid: 0,
            rss_bytes: 999,
            pss_bytes: None,
            cpu_nanos: None,
        },
    );
    let sample = build_sample(5, &processes).unwrap();
    assert_eq!(sample.process_count, 1);
    assert_eq!(sample.total_rss_bytes, 999);
}

#[test]
fn build_sample_errors_for_unknown_root() {
    let processes: HashMap<u32, ProcInfo> = HashMap::new();
    assert!(matches!(
        build_sample(99, &processes),
        Err(RssError::ProcessNotFound(99))
    ));
}

#[test]
fn build_sample_sums_pss_when_every_process_has_it() {
    let mut processes = HashMap::new();
    processes.insert(
        1,
        ProcInfo {
            ppid: 0,
            rss_bytes: 1000,
            pss_bytes: Some(400),
            cpu_nanos: None,
        },
    );
    processes.insert(
        2,
        ProcInfo {
            ppid: 1,
            rss_bytes: 2000,
            pss_bytes: Some(600),
            cpu_nanos: None,
        },
    );

    let sample = build_sample(1, &processes).unwrap();
    assert_eq!(sample.process_count, 2);
    assert_eq!(sample.total_pss_bytes, Some(1000));
    assert_eq!(sample.pss_process_count, 2);
}

#[test]
fn build_sample_pss_is_none_when_no_process_has_it() {
    let mut processes = HashMap::new();
    processes.insert(
        1,
        ProcInfo {
            ppid: 0,
            rss_bytes: 1000,
            pss_bytes: None,
            cpu_nanos: None,
        },
    );
    processes.insert(
        2,
        ProcInfo {
            ppid: 1,
            rss_bytes: 2000,
            pss_bytes: None,
            cpu_nanos: None,
        },
    );

    let sample = build_sample(1, &processes).unwrap();
    assert_eq!(sample.total_rss_bytes, 3000);
    assert_eq!(sample.total_pss_bytes, None);
    assert_eq!(sample.pss_process_count, 0);
}

#[test]
fn build_sample_pss_partial_when_only_some_processes_have_it() {
    let mut processes = HashMap::new();
    processes.insert(
        1,
        ProcInfo {
            ppid: 0,
            rss_bytes: 1000,
            pss_bytes: Some(300),
            cpu_nanos: None,
        },
    );
    processes.insert(
        2,
        ProcInfo {
            ppid: 1,
            rss_bytes: 2000,
            pss_bytes: None,
            cpu_nanos: None,
        },
    );
    processes.insert(
        3,
        ProcInfo {
            ppid: 1,
            rss_bytes: 500,
            pss_bytes: Some(150),
            cpu_nanos: None,
        },
    );

    let sample = build_sample(1, &processes).unwrap();
    assert_eq!(sample.process_count, 3);
    assert_eq!(sample.total_pss_bytes, Some(450));
    assert_eq!(sample.pss_process_count, 2);
    assert!(
        sample.pss_process_count < sample.process_count,
        "a partial PSS total must be distinguishable from a complete one"
    );
}

#[test]
fn parses_ppid_and_rss_from_status_text() {
    let text = "Name:\tbash\nState:\tS (sleeping)\nPPid:\t1234\nVmRSS:\t   4567 kB\n";
    let info = parse_status(text).unwrap().info();
    assert_eq!(info.ppid, 1234);
    assert_eq!(info.rss_bytes, 4567 * 1024);
    assert_eq!(info.pss_bytes, None);
}

#[test]
fn missing_ppid_yields_none() {
    let text = "Name:\tbash\nVmRSS:\t100 kB\n";
    assert!(parse_status(text).is_none());
}

#[test]
fn missing_vmrss_defaults_to_zero() {
    let text = "Name:\tbash\nPPid:\t1\n";
    let info = parse_status(text).unwrap().info();
    assert_eq!(info.rss_bytes, 0);
}

#[test]
fn read_pss_bytes_parses_the_pss_line() {
    let rollup = "00400000-00452000 r-xp 00000000 00:00 0\nRss:            1234 kB\nPss:             567 kB\nShared_Clean:      0 kB\n";
    assert_eq!(parse_pss_kb(rollup).map(kilobytes), Some(567 * 1024));
}

#[test]
fn read_pss_bytes_without_pss_line_is_none() {
    assert_eq!(parse_pss_kb("Rss:            1234 kB\n"), None);
}

#[test]
fn a_pss_line_without_a_number_is_none() {
    assert_eq!(parse_pss_kb("Pss: many kB\nPss: 5 kB\n"), None);
    assert_eq!(parse_pss_kb("Pss:\n"), None);
}

#[test]
fn cpu_time_is_read_behind_the_last_bracket() {
    let stat = "42 (Web Content (1)) S 1 42 42 0 -1 4194560 100 0 0 0 150 25 0 0 20 0 1 0 100 0 0";
    assert_eq!(parse_cpu_nanos(stat), Some(1_750_000_000));
    assert_eq!(parse_cpu_nanos("42 bash S 1 2 3"), None);
    assert_eq!(parse_cpu_nanos("42 (bash) S 1 2 3"), None);
    assert_eq!(parse_cpu_nanos("42 (bash) S 1 2 3 4 5 6 7 8 9 10 x 25"), None);
}

#[test]
fn ps_output_is_read_line_by_line() {
    let map = parse_ps_output("  1     0   100\n 20     1  2048\nnonsense\n 20 1\n 21 x 5\n 1 0 300\n");
    assert_eq!(map.len(), 2);
    assert_eq!(map[&1], ProcStatus { ppid: 0, rss_kb: 300 });
    assert_eq!(map[&20].info().rss_bytes, 2048 * 1024);
}

#[test]
fn the_last_status_line_of_a_key_counts() {
    let status = parse_status("PPid:\t1\nVmRSS:\t5 kB\nPPid:\t2\nVmRSS:\tx kB\n").unwrap();
    assert_eq!(status, ProcStatus { ppid: 2, rss_kb: 0 });
    assert_eq!(parse_status("PPid:\t1\nPPid:\tx\n"), None);
}

fn process(ppid: u32) -> ProcInfo {
    ProcInfo { ppid, rss_bytes: 10, pss_bytes: None, cpu_nanos: Some(5) }
}

#[test]
fn a_tree_is_listed_once_with_its_root_first() {
    let processes: HashMap<u32, ProcInfo> = [
        (1, process(0)),
        (2, process(1)),
        (3, process(1)),
        (4, process(3)),
        (5, process(99)),
    ]
    .into_iter()
    .collect();
    let mut tree = collect_descendants(1, &processes);
    assert_eq!(tree[0], 1);
    tree.sort();
    assert_eq!(tree, [1, 2, 3, 4]);
    assert_eq!(collect_descendants(7, &processes), [7]);
}

#[test]
fn a_process_that_started_itself_is_listed_once() {
    let processes: HashMap<u32, ProcInfo> =
        [(0, process(0)), (1, process(2)), (2, process(1))].into_iter().collect();
    assert_eq!(collect_descendants(0, &processes), [0]);
    let mut tree = collect_descendants(1, &processes);
    tree.sort();
    assert_eq!(tree, [1, 2]);
}

#[test]
fn processor_time_adds_up_over_the_tree() {
    let processes: HashMap<u32, ProcInfo> =
        [(1, process(0)), (2, process(1)), (3, process(0))].into_iter().collect();
    let sample = build_sample(1, &processes).unwrap();
    assert_eq!(sample.total_cpu_nanos, Some(10));
    assert_eq!(sample.process_count, 2);
}

#[test]
fn processor_time_between_samples_needs_both_and_some_time() {
    let sample = |cpu: Option<u128>| RssSample {
        root_pid: 1,
        process_count: 2,
        total_rss_bytes: 0,
        total_pss_bytes: None,
        pss_process_count: 0,
        total_cpu_nanos: cpu,
    };
    let second = 1_000_000_000;
    let between = |a, b, wall| cpu_nanos_between(&sample(a), &sample(b), wall);
    assert_eq!(between(Some(second), Some(3 * second), second), Some(2 * second));
    assert_eq!(between(Some(5 * second), Some(4 * second), second), None);
    assert_eq!(between(Some(second), Some(2 * second), 0), None);
    assert_eq!(between(None, Some(2 * second), second), None);
    assert_eq!(between(Some(second), None, second), None);
}

#[test]
fn filetime_halves_make_one_number() {
    assert_eq!(filetime_ticks(10_000_000, 0), 10_000_000);
    assert_eq!(filetime_ticks(0, 1), 1 << 32);
    assert_eq!(filetime_ticks(123_456_789, 7), (7u64 << 32) | 123_456_789);
    assert_eq!(filetime_nanos(10_000_000, 0), 1_000_000_000);
    assert_eq!(filetime_nanos(u32::MAX, u32::MAX), u128::from(u64::MAX) * 100);
}

#[test]
fn errors_say_what_went_wrong() {
    assert_eq!(RssError::ProcessNotFound(7).message(), "process 7 not found");
    assert_eq!(
        RssError::Io("denied".to_owned()).message(),
        "I/O error reading process info: denied"
    );
    assert_eq!(
        RssError::Unsupported.message(),
        "RSS sampling is not implemented on this platform"
    );
}
