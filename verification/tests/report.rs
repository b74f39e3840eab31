use crash_reporter::report::{
    command_value, component_package, component_version, crash_fingerprint, crash_message,
    crash_tags, monitor_value, needs_exit_timestamp, release_name, runtime_seconds, sanitize_event_tags,
    sanitize_technical_value, service_runtime_seconds, systemd_property, CrashReport,
    MAX_TAG_LENGTH,
};

#[test]
fn technical_values_are_bounded_and_remove_unapproved_characters() {
    let value = format!(
        " service name\x00 with spaces / secret={} ",
        "x".repeat(200)
    );
    let sanitized = sanitize_technical_value(value);

    assert!(sanitized.starts_with("servicenamewithspacessecret"));
    assert!(sanitized.len() <= MAX_TAG_LENGTH);
    for forbidden in [' ', '/', '=', '\0'] {
        assert!(!sanitized.contains(forbidden));
    }
}

#[test]
fn only_known_services_map_to_component_packages() {
    assert_eq!(
        component_package("meticulous-dial.service"),
        Some("meticulous-dial")
    );
    assert_eq!(
        component_package("meticulous-backend.service"),
        Some("meticulous-backend")
    );
    assert_eq!(component_package("customer-provided.service"), None);
}

#[test]
fn event_sanitizer_keeps_only_approved_diagnostic_tags() {
    let mut tags = vec![
        ("hostname".to_string(), "personal-hostname".to_string()),
        ("unit".to_string(), "meticulous-dial.service".to_string()),
    ];

    sanitize_event_tags(&mut tags);

    assert_eq!(
        tags.iter().find(|(key, _)| key == "unit").map(|(_, value)| value),
        Some(&"meticulous-dial.service".to_string())
    );
    assert!(!tags.iter().any(|(key, _)| key == "hostname"));
}

#[test]
fn runtime_is_derived_from_monotonic_systemd_timestamps() {
    assert_eq!(runtime_seconds("1000000", "4500000"), Some("3".to_string()));
    assert_eq!(runtime_seconds("4500000", "1000000"), None);
    assert_eq!(runtime_seconds("not-a-timestamp", "4500000"), None);
}

#[test]
fn crash_message_contains_only_the_approved_fields() {
    let message = crash_message("meticulous-backend.service", "failed", "exited", "1");

    assert_eq!(
        message,
        "Service meticulous-backend.service crashed (job_result: failed, exit_code: exited, exit_status: 1)"
    );
    assert!(!message.contains("hostname"));
    assert!(!message.contains("invocation"));
}

#[test]
fn empty_or_forbidden_values_become_unknown() {
    assert_eq!(sanitize_technical_value(String::new()), "unknown");
    assert_eq!(sanitize_technical_value(" / = \u{3000}".to_string()), "unknown");
    assert_eq!(
        sanitize_technical_value("\u{a0}\tv1.2.3+build~4@host:x_y-z\u{2028}".to_string()),
        "v1.2.3+build~4@host:x_y-z"
    );
    assert_eq!(sanitize_technical_value("é-ß".to_string()), "-");
}

#[test]
fn technical_values_keep_exactly_the_first_128_approved_characters() {
    let value = format!("{}{}", "a".repeat(127), "bc");
    assert_eq!(sanitize_technical_value(value), format!("{}b", "a".repeat(127)));
}

#[test]
fn sanitizing_twice_changes_nothing() {
    for raw in [" service name\x00 / x", "", "a/b/c", "meticulous-dial.service"] {
        let once = sanitize_technical_value(raw.to_string());
        let twice = sanitize_technical_value(once.clone());
        assert_eq!(once, twice);
    }
}

#[test]
fn command_value_drops_missing_and_unknown_output() {
    assert_eq!(command_value(None), None);
    assert_eq!(command_value(Some("  \n".to_string())), None);
    assert_eq!(command_value(Some("unknown\n".to_string())), None);
    assert_eq!(command_value(Some(" 3\n".to_string())), Some("3".to_string()));
}

#[test]
fn systemd_property_asks_systemctl_for_one_value() {
    let request = systemd_property("meticulous-dial.service", "NRestarts");
    assert_eq!(request.program, "systemctl");
    assert_eq!(
        request.arguments,
        vec!["show", "meticulous-dial.service", "--property", "NRestarts", "--value"]
    );
}

#[test]
fn component_version_asks_dpkg_only_for_known_units() {
    let request = component_version("meticulous-watcher.service").expect("known unit");
    assert_eq!(request.program, "dpkg-query");
    assert_eq!(
        request.arguments,
        vec!["--show", "--showformat=${Version}", "meticulous-watcher"]
    );
    assert!(component_version("sshd.service").is_none());
    assert_eq!(
        component_package("rauc-hawkbit-updater.service"),
        Some("rauc-hawkbit-updater")
    );
}

#[test]
fn runtime_parses_like_unsigned_integers() {
    assert_eq!(runtime_seconds("+0", "999999"), Some("0".to_string()));
    assert_eq!(runtime_seconds("0", "18446744073709551615"), Some("18446744073709".to_string()));
    assert_eq!(runtime_seconds("0", "18446744073709551616"), None);
    assert_eq!(runtime_seconds("", "1"), None);
    assert_eq!(runtime_seconds("+", "1"), None);
    assert_eq!(runtime_seconds("-1", "1"), None);
    assert_eq!(runtime_seconds(" 1", "2000001"), None);
    assert_eq!(runtime_seconds("5", "5"), Some("0".to_string()));
}

#[test]
fn service_runtime_uses_both_systemctl_outputs() {
    assert_eq!(
        service_runtime_seconds(Some("1000000\n".to_string()), Some("61000000\n".to_string())),
        Some("60".to_string())
    );
    assert_eq!(service_runtime_seconds(None, Some("61000000".to_string())), None);
    assert_eq!(service_runtime_seconds(Some("0".to_string()), Some("".to_string())), None);
}

#[test]
fn monitor_values_default_to_unknown() {
    assert_eq!(monitor_value(None), "unknown");
    assert_eq!(monitor_value(Some("exit-code\n".to_string())), "exit-code");
    assert_eq!(release_name("1.2.3"), "meticulous-linux@1.2.3");
}

#[test]
fn crash_tags_survive_the_event_sanitizer() {
    let report = CrashReport {
        unit: "meticulous-dial.service".to_string(),
        job_result: "failed".to_string(),
        exit_code: "exited".to_string(),
        exit_status: "1".to_string(),
        build_version: "2024.1".to_string(),
        build_channel: "stable".to_string(),
        build_date: "2024-01-01".to_string(),
        reporter_version: "0.1.0".to_string(),
        component_version: Some("1.0.0".to_string()),
        restart_count: None,
        runtime_seconds: Some("42".to_string()),
    };
    let tags = crash_tags(&report);
    assert_eq!(tags.len(), 10);
    assert_eq!(tags[0], ("unit".to_string(), "meticulous-dial.service".to_string()));
    assert_eq!(tags[9], ("runtime-seconds".to_string(), "42".to_string()));
    let mut sanitized = tags.clone();
    sanitize_event_tags(&mut sanitized);
    assert_eq!(sanitized, tags);
    assert_eq!(
        crash_fingerprint("u", "j", "c", "s"),
        vec!["systemd-service-failure", "u", "j", "c", "s"]
    );
}

#[test]
fn event_tags_keep_their_order_and_are_sanitized() {
    let mut tags = vec![
        ("build-date".to_string(), " 2024-01-01 ".to_string()),
        ("user".to_string(), "alice".to_string()),
        ("exit-status".to_string(), "".to_string()),
    ];
    sanitize_event_tags(&mut tags);
    assert_eq!(
        tags,
        vec![
            ("build-date".to_string(), "2024-01-01".to_string()),
            ("exit-status".to_string(), "unknown".to_string()),
        ]
    );
}

#[test]
fn exit_timestamp_is_needed_only_after_a_start_timestamp() {
    assert!(needs_exit_timestamp(&Some("1000000\n".to_string())));
    assert!(!needs_exit_timestamp(&Some(" \n".to_string())));
    assert!(!needs_exit_timestamp(&Some("unknown".to_string())));
    assert!(!needs_exit_timestamp(&None));
}
