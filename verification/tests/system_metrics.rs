use crash_reporter::system_metrics::{
    bytes_to_mib, collect, command_value, disk_usage_command, is_process_directory,
    memory_peak_path, nanoseconds_to_tenths, parse_df_output, parse_kib_value, parse_meminfo,
    parse_process_rss, parse_unsigned, process_memory, safe_cgroup_path, sanitize,
    sanitize_process_name, select_top_processes, Context, DiskSnapshot, MemorySnapshot,
    MetricValue, ProcessMemory, SystemReadings,
};
use std::path::PathBuf;

#[test]
fn meminfo_is_reduced_to_approved_numeric_metrics() {
    let contents = "\
MemTotal:        4096000 kB
MemFree:          100000 kB
MemAvailable:     512000 kB
Buffers:           64000 kB
SwapTotal:       1024000 kB
SwapFree:         768000 kB
";

    assert_eq!(
        parse_meminfo(contents),
        Some(MemorySnapshot {
            total_bytes: 4_194_304_000,
            available_bytes: 524_288_000,
            swap_total_bytes: 1_048_576_000,
            swap_used_bytes: 262_144_000,
        })
    );
}

#[test]
fn df_output_is_reduced_to_capacity_values() {
    let output = "\
1B-blocks       Avail Use%
31138512896 11800000000  63%
";

    assert_eq!(
        parse_df_output(output),
        Some(DiskSnapshot {
            total_bytes: 31_138_512_896,
            available_bytes: 11_800_000_000,
            used_percent: 63,
        })
    );
}

#[test]
fn process_rss_parser_ignores_other_process_status_fields() {
    let status = "\
Name:\tmeticulous-dial
State:\tS (sleeping)
VmSize:\t1200000 kB
VmRSS:\t812000 kB
";

    assert_eq!(parse_process_rss(status), Some(831_488_000));
}

#[test]
fn process_names_are_bounded_and_remove_unapproved_characters() {
    assert_eq!(
        sanitize_process_name(" WebKit Web/Process --customer=value "),
        Some("WebKitWebProcess--customervalue".to_string())
    );
    assert_eq!(sanitize_process_name(" / = "), None);
}

#[test]
fn top_processes_are_sorted_and_limited() {
    let selected = select_top_processes(vec![
        ProcessMemory {
            name: "watcher".to_string(),
            rss_bytes: 90,
        },
        ProcessMemory {
            name: "dial".to_string(),
            rss_bytes: 800,
        },
        ProcessMemory {
            name: "backend".to_string(),
            rss_bytes: 300,
        },
        ProcessMemory {
            name: "journald".to_string(),
            rss_bytes: 100,
        },
    ]);

    assert_eq!(
        selected,
        vec![
            ProcessMemory {
                name: "dial".to_string(),
                rss_bytes: 800,
            },
            ProcessMemory {
                name: "backend".to_string(),
                rss_bytes: 300,
            },
            ProcessMemory {
                name: "journald".to_string(),
                rss_bytes: 100,
            },
        ]
    );
}

#[test]
fn cgroup_path_cannot_escape_the_cgroup_root() {
    assert_eq!(
        safe_cgroup_path("/system.slice/meticulous-backend.service").map(PathBuf::from),
        Some(PathBuf::from(
            "/sys/fs/cgroup/system.slice/meticulous-backend.service"
        ))
    );
    assert_eq!(safe_cgroup_path("/../../meticulous-user"), None);
    assert_eq!(safe_cgroup_path("/"), None);
}

#[test]
fn context_sanitizer_keeps_only_approved_metrics() {
    let values: Vec<(String, sentry::protocol::Value)> = vec![
        ("memory-total-mib".to_string(), 973_u64.into()),
        ("command-line".to_string(), "private argument".into()),
    ];
    let mut context: Context<sentry::protocol::Value, ()> = Context::Other(values);

    assert!(sanitize(&mut context));
    let Context::Other(values) = context else {
        panic!("approved context should remain an arbitrary context");
    };
    assert!(values.iter().any(|(key, _)| key == "memory-total-mib"));
    assert!(!values.iter().any(|(key, _)| key == "command-line"));
}

#[test]
fn telemetry_units_are_human_readable_and_rounded() {
    assert_eq!(bytes_to_mib(199_491_584), 190);
    assert_eq!(bytes_to_mib(286_396_416), 273);
    assert_eq!(nanoseconds_to_tenths(1_556_872_315_000) as f64 / 10.0, 1556.9);
}

#[test]
fn unit_conversions_round_half_up_and_saturate() {
    assert_eq!(bytes_to_mib(0), 0);
    assert_eq!(bytes_to_mib(524_287), 0);
    assert_eq!(bytes_to_mib(524_288), 1);
    assert_eq!(bytes_to_mib(u64::MAX), u64::MAX / 1_048_576);
    assert_eq!(nanoseconds_to_tenths(49_999_999), 0);
    assert_eq!(nanoseconds_to_tenths(50_000_000), 1);
    assert_eq!(nanoseconds_to_tenths(u64::MAX), u64::MAX / 100_000_000);
}

#[test]
fn meminfo_takes_the_last_line_of_each_field_and_needs_all_four() {
    let contents = "MemTotal: 1 kB\r\nMemAvailable: 2 kB\nSwapTotal: 3 kB\nSwapFree: 1 kB\nMemTotal: 4 kB";
    assert_eq!(
        parse_meminfo(contents),
        Some(MemorySnapshot {
            total_bytes: 4096,
            available_bytes: 2048,
            swap_total_bytes: 3072,
            swap_used_bytes: 2048,
        })
    );
    assert_eq!(parse_meminfo("MemTotal: 1 kB\nMemAvailable: 2 kB\nSwapTotal: 3 kB\n"), None);
    assert_eq!(
        parse_meminfo("MemTotal: 1 kB\nMemAvailable: 2 kB\nSwapTotal: 1 kB\nSwapFree: 3 kB\n"),
        None
    );
    assert_eq!(
        parse_meminfo("MemTotal: 1 kB\nMemAvailable: x kB\nSwapTotal: 3 kB\nSwapFree: 1 kB\n"),
        None
    );
}

#[test]
fn kib_values_are_checked_for_overflow() {
    assert_eq!(parse_kib_value("MemTotal: 18014398509481983 kB"), Some(18_446_744_073_709_550_592));
    assert_eq!(parse_kib_value("MemTotal: 18014398509481984 kB"), None);
    assert_eq!(parse_kib_value("MemTotal:"), None);
    assert_eq!(parse_kib_value("  MemTotal:\u{2003}7"), Some(7168));
}

#[test]
fn df_output_uses_its_last_nonblank_line() {
    assert_eq!(
        parse_df_output("size avail pcent\n10 5 50%%\n\n   \n"),
        Some(DiskSnapshot {
            total_bytes: 10,
            available_bytes: 5,
            used_percent: 50,
        })
    );
    assert_eq!(parse_df_output("10 5\n"), None);
    assert_eq!(parse_df_output(""), None);
    assert_eq!(parse_df_output("1B-blocks Avail Use%\n"), None);
}

#[test]
fn process_rss_uses_the_first_vmrss_line() {
    assert_eq!(parse_process_rss("VmRSS: 1 kB\nVmRSS: 2 kB\n"), Some(1024));
    assert_eq!(parse_process_rss("Name: x\n"), None);
    assert_eq!(parse_process_rss(" VmRSS: 1 kB\n"), None);
}

#[test]
fn process_names_are_cut_to_64_characters() {
    let long = "p".repeat(70);
    assert_eq!(sanitize_process_name(&long), Some("p".repeat(64)));
}

#[test]
fn top_processes_do_not_depend_on_reading_order() {
    let make = |name: &str, rss: u64| ProcessMemory {
        name: name.to_string(),
        rss_bytes: rss,
    };
    let first = select_top_processes(vec![
        make("b", 5),
        make("a", 5),
        make("c", 9),
        make("d", 1),
    ]);
    let second = select_top_processes(vec![
        make("d", 1),
        make("c", 9),
        make("a", 5),
        make("b", 5),
    ]);
    assert_eq!(first, second);
    assert_eq!(first, vec![make("c", 9), make("a", 5), make("b", 5)]);
    assert_eq!(select_top_processes(vec![make("x", 1)]), vec![make("x", 1)]);
    assert_eq!(select_top_processes(vec![]), vec![]);
}

#[test]
fn cgroup_paths_are_normalized_and_checked() {
    assert_eq!(
        safe_cgroup_path("  //system.slice/./a.service/ \n"),
        Some("/sys/fs/cgroup/system.slice/a.service".to_string())
    );
    assert_eq!(safe_cgroup_path("system.slice/a.service"), None);
    assert_eq!(safe_cgroup_path("/a/../b"), None);
    assert_eq!(safe_cgroup_path("/./"), None);
    assert_eq!(safe_cgroup_path(""), None);
    assert_eq!(
        memory_peak_path(Some("/system.slice".to_string())),
        Some("/sys/fs/cgroup/system.slice/memory.peak".to_string())
    );
    assert_eq!(memory_peak_path(None), None);
}

#[test]
fn unsigned_values_may_be_surrounded_by_whitespace() {
    assert_eq!(parse_unsigned(" 42\n"), Some(42));
    assert_eq!(parse_unsigned("max\n"), None);
    assert_eq!(command_value(Some(" /system.slice \n".to_string())), Some("/system.slice".to_string()));
    assert_eq!(command_value(Some("\n".to_string())), None);
}

#[test]
fn process_directories_are_numeric() {
    assert!(is_process_directory("1234"));
    assert!(!is_process_directory("self"));
    assert!(!is_process_directory("4294967296"));
    assert_eq!(
        process_memory("dial\n", "VmRSS: 2 kB\n"),
        Some(ProcessMemory {
            name: "dial".to_string(),
            rss_bytes: 2048,
        })
    );
    assert_eq!(process_memory("dial\n", "Name: dial\n"), None);
    let request = disk_usage_command("/");
    assert_eq!(request.program, "df");
    assert_eq!(request.arguments, vec!["-B1", "--output=size,avail,pcent", "--", "/"]);
}

#[test]
fn collected_metrics_pass_the_context_sanitizer() {
    let readings = SystemReadings {
        memory: Some(MemorySnapshot {
            total_bytes: 1_048_576,
            available_bytes: 0,
            swap_total_bytes: 0,
            swap_used_bytes: 0,
        }),
        root_disk: Some(DiskSnapshot {
            total_bytes: 2_097_152,
            available_bytes: 1_048_576,
            used_percent: 50,
        }),
        user_data_disk: None,
        failed_service_memory_peak: Some(3_145_728),
        failed_service_cpu_usage: Some(1_550_000_000),
        top_processes: vec![
            ProcessMemory {
                name: "dial".to_string(),
                rss_bytes: 1_048_576,
            },
            ProcessMemory {
                name: "backend".to_string(),
                rss_bytes: 0,
            },
        ],
    };
    let metrics = collect(readings);
    let keys: Vec<&str> = metrics.iter().map(|(key, _)| key.as_str()).collect();
    assert_eq!(
        keys,
        vec![
            "memory-total-mib",
            "memory-available-mib",
            "swap-total-mib",
            "swap-used-mib",
            "root-disk-total-mib",
            "root-disk-available-mib",
            "root-disk-used-percent",
            "failed-service-memory-peak-mib",
            "failed-service-cpu-usage-seconds",
            "top-process-1",
            "top-process-1-rss-mib",
            "top-process-2",
            "top-process-2-rss-mib",
        ]
    );
    assert!(matches!(metrics[0].1, MetricValue::Unsigned(1)));
    assert!(matches!(metrics[8].1, MetricValue::TenthsOfSecond(16)));
    assert!(matches!(&metrics[9].1, MetricValue::Text(name) if name == "dial"));
    let count = metrics.len();
    let mut context: Context<MetricValue, ()> = Context::Other(metrics);
    assert!(sanitize(&mut context));
    let Context::Other(kept) = context else {
        panic!("metrics should remain a metrics context");
    };
    assert_eq!(kept.len(), count);

    let mut typed: Context<MetricValue, u8> = Context::Typed(7);
    assert!(!sanitize(&mut typed));
    let mut empty: Context<MetricValue, ()> = Context::Other(vec![("x".to_string(), MetricValue::Unsigned(1))]);
    assert!(!sanitize(&mut empty));
}

#[test]
fn collected_metric_keys_are_distinct() {
    let top_processes: Vec<ProcessMemory> = (1..=12)
        .map(|n| ProcessMemory {
            name: format!("p{n}"),
            rss_bytes: n,
        })
        .collect();
    let readings = SystemReadings {
        memory: Some(MemorySnapshot {
            total_bytes: 1,
            available_bytes: 1,
            swap_total_bytes: 1,
            swap_used_bytes: 0,
        }),
        root_disk: Some(DiskSnapshot {
            total_bytes: 1,
            available_bytes: 1,
            used_percent: 1,
        }),
        user_data_disk: Some(DiskSnapshot {
            total_bytes: 1,
            available_bytes: 1,
            used_percent: 1,
        }),
        failed_service_memory_peak: Some(1),
        failed_service_cpu_usage: Some(1),
        top_processes,
    };
    let metrics = collect(readings);
    assert_eq!(metrics.len(), 12 + 24);
    let keys: std::collections::BTreeSet<&str> = metrics.iter().map(|(key, _)| key.as_str()).collect();
    assert_eq!(keys.len(), metrics.len());
    assert!(keys.contains("top-process-12-rss-mib"));
}

#[test]
fn meminfo_lines_without_a_key_change_nothing() {
    let base = "MemTotal: 4 kB\nMemAvailable: 2 kB\nSwapTotal: 3 kB\nSwapFree: 1 kB\n";
    let with_other = "MemTotal: 4 kB\nBuffers: 9 kB\r\nMemAvailable: 2 kB\nSwapTotal: 3 kB\nSwapFree: 1 kB\nHugePages_Total: 0\n";
    assert!(parse_meminfo(base).is_some());
    assert_eq!(parse_meminfo(with_other), parse_meminfo(base));
}

#[test]
fn collected_keys_for_three_processes_are_approved() {
    let top_processes = select_top_processes(
        (1..=5)
            .map(|n| ProcessMemory {
                name: format!("p{n}"),
                rss_bytes: n,
            })
            .collect(),
    );
    let readings = SystemReadings {
        memory: None,
        root_disk: None,
        user_data_disk: Some(DiskSnapshot {
            total_bytes: 1,
            available_bytes: 1,
            used_percent: 1,
        }),
        failed_service_memory_peak: None,
        failed_service_cpu_usage: Some(1),
        top_processes,
    };
    let metrics = collect(readings);
    assert_eq!(metrics.len(), 3 + 1 + 6);
    let count = metrics.len();
    let mut context: Context<MetricValue, ()> = Context::Other(metrics);
    assert!(sanitize(&mut context));
    let Context::Other(kept) = context else {
        panic!("metrics should remain a metrics context");
    };
    assert_eq!(kept.len(), count);
}
