//! The crash report of a failed systemd service: its tags, its message, and
//! the sanitizing of every value that goes into them.
use vstd::prelude::*;
use crate::command::CommandRequest;
use crate::text::{
    all_technical, is_technical_char, chars_of, lemma_keep_technical_skips,
    lemma_keep_technical_trim, collect_technical, keep_technical, lemma_keep_technical_all,
    lemma_keep_technical_fixed, lemma_trim_technical, limit_len, opt_view, owned, parse_u64,
    parse_u64_chars, decimal, lemma_parse_decimal, lemma_decimal_len, pow10, all_digits, decimal_string, str_eq, trim, trim_bounds,
};

verus! {

/// The longest technical value, in characters.
pub const MAX_TAG_LENGTH: usize = 128;

/// The value that stands in for one that is missing or holds no approved character.
pub open spec fn unknown_value() -> Seq<char> {
    seq!['u', 'n', 'k', 'n', 'o', 'w', 'n']
}

fn unknown_string() -> (r: String)
    ensures
        r@ == unknown_value(),
{
    proof {
        reveal_strlit("unknown");
    }
    owned("unknown")
}

/// A technical value as it may be reported: trimmed, reduced to its technical
/// characters, cut to `MAX_TAG_LENGTH` characters, and `unknown` where
/// nothing is left.
pub open spec fn sanitized_technical_value(s: Seq<char>) -> Seq<char> {
    let kept = limit_len(keep_technical(trim(s)), MAX_TAG_LENGTH as nat);
    if kept.len() == 0 {
        unknown_value()
    } else {
        kept
    }
}

pub fn sanitize_technical_value(value: String) -> (r: String)
    ensures
        r@ == sanitized_technical_value(value@),
        0 < r@.len() <= MAX_TAG_LENGTH,
        all_technical(r@),
{
    let v = chars_of(value.as_str());
    assert(v@.subrange(0, v.len() as int) =~= v@);
    let (start, end) = trim_bounds(&v, 0, v.len());
    let kept = collect_technical(&v, start, end, MAX_TAG_LENGTH);
    proof {
        lemma_sanitized_value_bounds(value@);
    }
    if kept.as_str().is_empty() {
        unknown_string()
    } else {
        kept
    }
}

/// A value made only of technical characters is kept as it is, cut to
/// `MAX_TAG_LENGTH` characters; an empty value becomes `unknown`.
pub proof fn lemma_technical_value_of_clean_value(t: Seq<char>)
    requires
        all_technical(t),
    ensures
        sanitized_technical_value(t) == if t.len() == 0 {
            seq!['u', 'n', 'k', 'n', 'o', 'w', 'n']
        } else if t.len() <= 128 {
            t
        } else {
            t.take(128)
        },
{
    lemma_trim_technical(t);
    lemma_keep_technical_fixed(t);
}

/// A character that is not technical, wherever it stands, does not change a
/// technical value.
pub proof fn lemma_technical_value_ignores_other_chars(a: Seq<char>, c: char, b: Seq<char>)
    requires
        !is_technical_char(c),
    ensures
        sanitized_technical_value(a + seq![c] + b) == sanitized_technical_value(a + b),
{
    lemma_keep_technical_trim(a + seq![c] + b);
    lemma_keep_technical_trim(a + b);
    lemma_keep_technical_skips(a, c, b);
}

/// Sanitizing a sanitized value changes nothing.
pub proof fn lemma_sanitize_technical_value_idempotent(s: Seq<char>)
    ensures
        sanitized_technical_value(sanitized_technical_value(s)) == sanitized_technical_value(s),
{
    lemma_sanitized_value_bounds(s);
    let t = sanitized_technical_value(s);
    lemma_trim_technical(t);
    lemma_keep_technical_fixed(t);
}


/// What a command's output becomes: its sanitized value, or nothing where the
/// command gave no output or its value sanitizes to `unknown`.
pub open spec fn command_value_of(stdout: Option<Seq<char>>) -> Option<Seq<char>> {
    match stdout {
        Some(out) => {
            let value = sanitized_technical_value(out);
            if value == unknown_value() {
                None
            } else {
                Some(value)
            }
        },
        None => None,
    }
}

/// Reads the value of a command's standard output; `stdout` is `None` where
/// the command could not run, failed, or wrote what is not UTF-8.
pub fn command_value(stdout: Option<String>) -> (r: Option<String>)
    ensures
        opt_view(r) == command_value_of(opt_view(stdout)),
{
    match stdout {
        Some(out) => {
            let value = sanitize_technical_value(out);
            proof {
                reveal_strlit("unknown");
                assert("unknown"@ =~= unknown_value());
            }
            if str_eq(value.as_str(), "unknown") {
                None
            } else {
                Some(value)
            }
        },
        None => None,
    }
}

/// The `systemctl` command that prints the value of one property of a unit.
pub fn systemd_property(unit: &str, property: &str) -> (r: CommandRequest)
    ensures
        r.program@ == "systemctl"@,
        r.argument_views() == seq!["show"@, unit@, "--property"@, property@, "--value"@],
{
    let mut arguments: Vec<String> = Vec::new();
    arguments.push(owned("show"));
    arguments.push(owned(unit));
    arguments.push(owned("--property"));
    arguments.push(owned(property));
    arguments.push(owned("--value"));
    let r = CommandRequest { program: owned("systemctl"), arguments };
    assert(r.argument_views() =~= seq!["show"@, unit@, "--property"@, property@, "--value"@]);
    r
}

/// The package that holds the software of a known service unit.
pub open spec fn package_of(unit: Seq<char>) -> Option<Seq<char>> {
    if unit == "meticulous-backend.service"@ {
        Some("meticulous-backend"@)
    } else if unit == "meticulous-dial.service"@ {
        Some("meticulous-dial"@)
    } else if unit == "meticulous-watcher.service"@ {
        Some("meticulous-watcher"@)
    } else if unit == "rauc-hawkbit-updater.service"@ {
        Some("rauc-hawkbit-updater"@)
    } else {
        None
    }
}

pub fn component_package(unit: &str) -> (r: Option<&'static str>)
    ensures
        match r {
            Some(p) => package_of(unit@) == Some(p@),
            None => package_of(unit@) is None,
        },
{
    if str_eq(unit, "meticulous-backend.service") {
        Some("meticulous-backend")
    } else if str_eq(unit, "meticulous-dial.service") {
        Some("meticulous-dial")
    } else if str_eq(unit, "meticulous-watcher.service") {
        Some("meticulous-watcher")
    } else if str_eq(unit, "rauc-hawkbit-updater.service") {
        Some("rauc-hawkbit-updater")
    } else {
        None
    }
}

/// The `dpkg-query` command that prints the installed version of the package
/// of a known unit; `None` for any other unit.
pub fn component_version(unit: &str) -> (r: Option<CommandRequest>)
    ensures
        match r {
            Some(request) => {
                &&& package_of(unit@) is Some
                &&& request.program@ == "dpkg-query"@
                &&& request.argument_views() == seq![
                    "--show"@,
                    "--showformat=${Version}"@,
                    package_of(unit@)->0,
                ]
            },
            None => package_of(unit@) is None,
        },
{
    match component_package(unit) {
        Some(package) => {
            let mut arguments: Vec<String> = Vec::new();
            arguments.push(owned("--show"));
            arguments.push(owned("--showformat=${Version}"));
            arguments.push(owned(package));
            let r = CommandRequest { program: owned("dpkg-query"), arguments };
            assert(r.argument_views() =~= seq![
                "--show"@,
                "--showformat=${Version}"@,
                package_of(unit@)->0,
            ]);
            Some(r)
        },
        None => None,
    }
}

/// Microseconds in a second.
pub const MICROSECONDS_PER_SECOND: u64 = 1_000_000;

/// The whole seconds between two monotonic timestamps in microseconds, in
/// decimal; nothing where a timestamp is no number or the exit precedes the start.
pub open spec fn runtime_of(start_micros: Seq<char>, exit_micros: Seq<char>) -> Option<Seq<char>> {
    match (parse_u64(start_micros), parse_u64(exit_micros)) {
        (Some(start), Some(exit)) => if start <= exit {
            Some(decimal(((exit - start) / (MICROSECONDS_PER_SECOND as int)) as nat))
        } else {
            None
        },
        _ => None,
    }
}

pub fn runtime_seconds(start_micros: &str, exit_micros: &str) -> (r: Option<String>)
    ensures
        opt_view(r) == runtime_of(start_micros@, exit_micros@),
{
    let start_chars = chars_of(start_micros);
    let exit_chars = chars_of(exit_micros);
    assert(start_chars@.subrange(0, start_chars.len() as int) =~= start_chars@);
    assert(exit_chars@.subrange(0, exit_chars.len() as int) =~= exit_chars@);
    let start = match parse_u64_chars(&start_chars, 0, start_chars.len()) {
        Some(start) => start,
        None => return None,
    };
    let exit = match parse_u64_chars(&exit_chars, 0, exit_chars.len()) {
        Some(exit) => exit,
        None => return None,
    };
    if exit < start {
        return None;
    }
    let elapsed = exit - start;
    Some(decimal_string(elapsed / MICROSECONDS_PER_SECOND))
}

/// The runtime of a unit from the outputs of the two `systemctl` commands that
/// print its start and exit timestamps.
pub open spec fn service_runtime_of(
    start_stdout: Option<Seq<char>>,
    exit_stdout: Option<Seq<char>>,
) -> Option<Seq<char>> {
    match (command_value_of(start_stdout), command_value_of(exit_stdout)) {
        (Some(start), Some(exit)) => runtime_of(start, exit),
        _ => None,
    }
}

/// Whether the exit timestamp of a unit is still needed once the output of
/// the `systemctl` command for its start timestamp is known: only where that
/// output gives a value.
pub fn needs_exit_timestamp(start_stdout: &Option<String>) -> (r: bool)
    ensures
        r == command_value_of(opt_view(*start_stdout)) is Some,
{
    match start_stdout {
        Some(out) => command_value(Some(out.clone())).is_some(),
        None => false,
    }
}

pub fn service_runtime_seconds(start_stdout: Option<String>, exit_stdout: Option<String>) -> (r:
    Option<String>)
    ensures
        opt_view(r) == service_runtime_of(opt_view(start_stdout), opt_view(exit_stdout)),
{
    let start = match command_value(start_stdout) {
        Some(start) => start,
        None => return None,
    };
    let exit = match command_value(exit_stdout) {
        Some(exit) => exit,
        None => return None,
    };
    runtime_seconds(start.as_str(), exit.as_str())
}

/// The message of the crash report, which names the unit and its three exit fields.
pub open spec fn crash_message_of(
    unit: Seq<char>,
    job_result: Seq<char>,
    exit_code: Seq<char>,
    exit_status: Seq<char>,
) -> Seq<char> {
    "Service "@ + unit + " crashed (job_result: "@ + job_result + ", exit_code: "@ + exit_code
        + ", exit_status: "@ + exit_status + ")"@
}

pub fn crash_message(unit: &str, job_result: &str, exit_code: &str, exit_status: &str) -> (r:
    String)
    ensures
        r@ == crash_message_of(unit@, job_result@, exit_code@, exit_status@),
{
    let mut message = owned("Service ");
    message.append(unit);
    message.append(" crashed (job_result: ");
    message.append(job_result);
    message.append(", exit_code: ");
    message.append(exit_code);
    message.append(", exit_status: ");
    message.append(exit_status);
    message.append(")");
    message
}


/// The tags that a crash event may carry.
pub open spec fn is_allowed_event_tag(key: Seq<char>) -> bool {
    ||| key == "unit"@
    ||| key == "job-result"@
    ||| key == "exit-code"@
    ||| key == "exit-status"@
    ||| key == "build-version"@
    ||| key == "build-channel"@
    ||| key == "build-date"@
    ||| key == "component-version"@
    ||| key == "restart-count"@
    ||| key == "runtime-seconds"@
    ||| key == "crash-reporter-version"@
}

pub fn allowed_event_tag(key: &str) -> (r: bool)
    ensures
        r == is_allowed_event_tag(key@),
{
    str_eq(key, "unit") || str_eq(key, "job-result") || str_eq(key, "exit-code") || str_eq(
        key,
        "exit-status",
    ) || str_eq(key, "build-version") || str_eq(key, "build-channel") || str_eq(key, "build-date")
        || str_eq(key, "component-version") || str_eq(key, "restart-count") || str_eq(
        key,
        "runtime-seconds",
    ) || str_eq(key, "crash-reporter-version")
}

/// The characters of the keys and values of a list of tags.
pub open spec fn tag_views(tags: Seq<(String, String)>) -> Seq<(Seq<char>, Seq<char>)> {
    tags.map_values(|t: (String, String)| (t.0@, t.1@))
}

/// The approved tags of a list, in order, each value sanitized.
pub open spec fn sanitized_tags(tags: Seq<(Seq<char>, Seq<char>)>) -> Seq<(Seq<char>, Seq<char>)>
    decreases tags.len(),
{
    if tags.len() == 0 {
        seq![]
    } else {
        let rest = sanitized_tags(tags.drop_last());
        let (key, value) = tags.last();
        if is_allowed_event_tag(key) {
            rest.push((key, sanitized_technical_value(value)))
        } else {
            rest
        }
    }
}

/// No two tags share a key.
pub open spec fn distinct_tag_keys(tags: Seq<(Seq<char>, Seq<char>)>) -> bool {
    forall|i: int, j: int| 0 <= i < j < tags.len() ==> #[trigger] tags[i].0 != #[trigger] tags[j].0
}

/// Sanitizing keeps only keys that the tags had, and keys that were distinct
/// stay distinct.
pub proof fn lemma_sanitized_tags_keys(tags: Seq<(Seq<char>, Seq<char>)>)
    ensures
        forall|i: int|
            0 <= i < sanitized_tags(tags).len() ==> exists|j: int|
                0 <= j < tags.len() && tags[j].0 == (#[trigger] sanitized_tags(tags)[i]).0,
        distinct_tag_keys(tags) ==> distinct_tag_keys(sanitized_tags(tags)),
    decreases tags.len(),
{
    if tags.len() > 0 {
        let init = tags.drop_last();
        lemma_sanitized_tags_keys(init);
        let rest = sanitized_tags(init);
        let st = sanitized_tags(tags);
        assert forall|i: int| 0 <= i < st.len() implies exists|j: int|
            0 <= j < tags.len() && tags[j].0 == (#[trigger] st[i]).0 by {
            if i < rest.len() {
                assert(st[i] == rest[i]);
                let j = choose|j: int| 0 <= j < init.len() && init[j].0 == rest[i].0;
                assert(tags[j] == init[j]);
            } else {
                assert(tags[tags.len() - 1].0 == st[i].0);
            }
        }
        if distinct_tag_keys(tags) {
            assert(distinct_tag_keys(init)) by {
                assert forall|i: int, j: int| 0 <= i < j < init.len() implies #[trigger] init[i].0
                    != #[trigger] init[j].0 by {
                    assert(init[i] == tags[i] && init[j] == tags[j]);
                }
            }
            assert forall|i: int, j: int| 0 <= i < j < st.len() implies #[trigger] st[i].0
                != #[trigger] st[j].0 by {
                if j < rest.len() {
                    assert(st[i] == rest[i] && st[j] == rest[j]);
                } else {
                    assert(st[i] == rest[i]);
                    let k = choose|k: int| 0 <= k < init.len() && init[k].0 == rest[i].0;
                    assert(tags[k] == init[k]);
                    assert(st[j].0 == tags[tags.len() - 1].0);
                }
            }
        }
    }
}

/// Reduces the tags of an event to the approved ones and sanitizes their values.
pub fn sanitize_event_tags(tags: &mut Vec<(String, String)>)
    ensures
        tag_views(final(tags)@) == sanitized_tags(tag_views(old(tags)@)),
        distinct_tag_keys(tag_views(old(tags)@)) ==> distinct_tag_keys(tag_views(final(tags)@)),
{
    proof {
        lemma_sanitized_tags_keys(tag_views(tags@));
    }
    let mut kept: Vec<(String, String)> = Vec::new();
    let n = tags.len();
    for i in 0..n
        invariant
            n == tags.len(),
            tag_views(kept@) == sanitized_tags(tag_views(tags@.take(i as int))),
    {
        let key = tags[i].0.clone();
        let ghost before = tag_views(tags@.take(i as int));
        assert(tag_views(tags@.take(i + 1)).drop_last() =~= before);
        assert(tag_views(tags@.take(i + 1)).last() == (tags@[i as int].0@, tags@[i as int].1@));
        if allowed_event_tag(key.as_str()) {
            let value = sanitize_technical_value(tags[i].1.clone());
            let ghost old_kept = kept@;
            kept.push((key, value));
            assert(tag_views(kept@) =~= tag_views(old_kept).push((key@, value@)));
        }
    }
    assert(tags@.take(n as int) =~= tags@);
    *tags = kept;
}

/// After sanitizing, every tag is approved and every value is a sanitized
/// technical value.
pub proof fn lemma_sanitized_tags_approved(tags: Seq<(Seq<char>, Seq<char>)>)
    ensures
        forall|i: int|
            0 <= i < sanitized_tags(tags).len() ==> {
                let (key, value) = #[trigger] sanitized_tags(tags)[i];
                &&& is_allowed_event_tag(key)
                &&& 0 < value.len() <= MAX_TAG_LENGTH
                &&& all_technical(value)
            },
    decreases tags.len(),
{
    if tags.len() > 0 {
        lemma_sanitized_tags_approved(tags.drop_last());
        let (key, value) = tags.last();
        lemma_sanitized_value_bounds(value);
        let rest = sanitized_tags(tags.drop_last());
        assert forall|i: int| 0 <= i < sanitized_tags(tags).len() implies {
            let (k, v) = #[trigger] sanitized_tags(tags)[i];
            &&& is_allowed_event_tag(k)
            &&& 0 < v.len() <= MAX_TAG_LENGTH
            &&& all_technical(v)
        } by {
            if i < rest.len() {
                assert(sanitized_tags(tags)[i] == rest[i]);
            }
        }
    }
}

/// A sanitized value is a non-empty string of at most `MAX_TAG_LENGTH`
/// technical characters.
pub proof fn lemma_sanitized_value_bounds(s: Seq<char>)
    ensures
        0 < sanitized_technical_value(s).len() <= MAX_TAG_LENGTH,
        all_technical(sanitized_technical_value(s)),
{
    lemma_keep_technical_all(trim(s));
    let t = sanitized_technical_value(s);
    if limit_len(keep_technical(trim(s)), MAX_TAG_LENGTH as nat).len() == 0 {
        assert(forall|i: int|
            0 <= i < t.len() ==> #[trigger] t[i] == 'u' || t[i] == 'n' || t[i] == 'k' || t[i] == 'o'
                || t[i] == 'w');
    }
}


/// The runtime of two timestamps as systemd prints them is the whole number
/// of seconds from start to exit, and nothing where the exit precedes the start.
pub proof fn lemma_runtime_of_printed_timestamps(start: u64, exit: u64)
    ensures
        runtime_of(decimal(start as nat), decimal(exit as nat)) == if start <= exit {
            Some(decimal(((exit - start) / (MICROSECONDS_PER_SECOND as int)) as nat))
        } else {
            None
        },
{
    lemma_parse_decimal(start as nat);
    lemma_parse_decimal(exit as nat);
}

/// Sanitizing sanitized tags changes nothing.
pub proof fn lemma_sanitized_tags_idempotent(tags: Seq<(Seq<char>, Seq<char>)>)
    ensures
        sanitized_tags(sanitized_tags(tags)) == sanitized_tags(tags),
    decreases tags.len(),
{
    if tags.len() > 0 {
        lemma_sanitized_tags_idempotent(tags.drop_last());
        let rest = sanitized_tags(tags.drop_last());
        let (key, value) = tags.last();
        if is_allowed_event_tag(key) {
            let t = rest.push((key, sanitized_technical_value(value)));
            assert(t.drop_last() =~= rest);
            lemma_sanitize_technical_value_idempotent(value);
        }
    }
}


/// The value of a variable that systemd hands the reporter, sanitized, and
/// `unknown` where the variable is not set.
pub open spec fn monitor_value_of(raw: Option<Seq<char>>) -> Seq<char> {
    match raw {
        Some(v) => sanitized_technical_value(v),
        None => sanitized_technical_value(unknown_value()),
    }
}

pub fn monitor_value(raw: Option<String>) -> (r: String)
    ensures
        r@ == monitor_value_of(opt_view(raw)),
{
    match raw {
        Some(v) => sanitize_technical_value(v),
        None => sanitize_technical_value(unknown_string()),
    }
}

/// The release under which reports of a build are filed.
pub fn release_name(build_version: &str) -> (r: String)
    ensures
        r@ == "meticulous-linux@"@ + build_version@,
{
    let mut r = owned("meticulous-linux@");
    r.append(build_version);
    r
}

/// What a crash report tells of the failed unit and of the machine.
pub struct CrashReport {
    pub unit: String,
    pub job_result: String,
    pub exit_code: String,
    pub exit_status: String,
    pub build_version: String,
    pub build_channel: String,
    pub build_date: String,
    pub reporter_version: String,
    pub component_version: Option<String>,
    pub restart_count: Option<String>,
    pub runtime_seconds: Option<String>,
}

/// A tag where its value is known.
pub open spec fn optional_tag(key: Seq<char>, value: Option<Seq<char>>) -> Seq<
    (Seq<char>, Seq<char>),
> {
    match value {
        Some(v) => seq![(key, v)],
        None => seq![],
    }
}

/// The tags of a crash report, in the order in which they are set.
pub open spec fn crash_tags_of(report: CrashReport) -> Seq<(Seq<char>, Seq<char>)> {
    seq![
        ("unit"@, report.unit@),
        ("job-result"@, report.job_result@),
        ("exit-code"@, report.exit_code@),
        ("exit-status"@, report.exit_status@),
        ("build-version"@, report.build_version@),
        ("build-channel"@, report.build_channel@),
        ("build-date"@, report.build_date@),
        ("crash-reporter-version"@, report.reporter_version@),
    ] + optional_tag("component-version"@, opt_view(report.component_version)) + optional_tag(
        "restart-count"@,
        opt_view(report.restart_count),
    ) + optional_tag("runtime-seconds"@, opt_view(report.runtime_seconds))
}

fn push_tag(tags: &mut Vec<(String, String)>, key: &str, value: &String)
    ensures
        tag_views(final(tags)@) == tag_views(old(tags)@).push((key@, value@)),
{
    tags.push((owned(key), value.clone()));
    assert(tag_views(final(tags)@) =~= tag_views(old(tags)@).push((key@, value@)));
}

fn push_optional_tag(tags: &mut Vec<(String, String)>, key: &str, value: &Option<String>)
    ensures
        tag_views(final(tags)@) == tag_views(old(tags)@) + optional_tag(key@, opt_view(*value)),
{
    match value {
        Some(v) => {
            push_tag(tags, key, v);
            assert(tag_views(final(tags)@) =~= tag_views(old(tags)@) + optional_tag(key@, opt_view(*value)));
        },
        None => {
            assert(tag_views(final(tags)@) =~= tag_views(old(tags)@) + optional_tag(key@, opt_view(*value)));
        },
    }
}

/// The tags to set on the scope of a crash report.
pub fn crash_tags(report: &CrashReport) -> (r: Vec<(String, String)>)
    ensures
        tag_views(r@) == crash_tags_of(*report),
{
    let mut tags: Vec<(String, String)> = Vec::new();
    push_tag(&mut tags, "unit", &report.unit);
    push_tag(&mut tags, "job-result", &report.job_result);
    push_tag(&mut tags, "exit-code", &report.exit_code);
    push_tag(&mut tags, "exit-status", &report.exit_status);
    push_tag(&mut tags, "build-version", &report.build_version);
    push_tag(&mut tags, "build-channel", &report.build_channel);
    push_tag(&mut tags, "build-date", &report.build_date);
    push_tag(&mut tags, "crash-reporter-version", &report.reporter_version);
    let ghost fixed = tag_views(tags@);
    push_optional_tag(&mut tags, "component-version", &report.component_version);
    push_optional_tag(&mut tags, "restart-count", &report.restart_count);
    push_optional_tag(&mut tags, "runtime-seconds", &report.runtime_seconds);
    assert(tag_views(tags@) =~= crash_tags_of(*report));
    tags
}

/// The fingerprint that groups the reports of one kind of failure.
pub fn crash_fingerprint(unit: &str, job_result: &str, exit_code: &str, exit_status: &str) -> (r:
    Vec<String>)
    ensures
        r@.map_values(|s: String| s@) == seq![
            "systemd-service-failure"@,
            unit@,
            job_result@,
            exit_code@,
            exit_status@,
        ],
{
    let mut r: Vec<String> = Vec::new();
    r.push(owned("systemd-service-failure"));
    r.push(owned(unit));
    r.push(owned(job_result));
    r.push(owned(exit_code));
    r.push(owned(exit_status));
    assert(r@.map_values(|s: String| s@) =~= seq![
        "systemd-service-failure"@,
        unit@,
        job_result@,
        exit_code@,
        exit_status@,
    ]);
    r
}

/// The field of a crash report that a tag key names.
pub open spec fn report_field(report: CrashReport, key: Seq<char>) -> Option<Seq<char>> {
    if key == "unit"@ {
        Some(report.unit@)
    } else if key == "job-result"@ {
        Some(report.job_result@)
    } else if key == "exit-code"@ {
        Some(report.exit_code@)
    } else if key == "exit-status"@ {
        Some(report.exit_status@)
    } else if key == "build-version"@ {
        Some(report.build_version@)
    } else if key == "build-channel"@ {
        Some(report.build_channel@)
    } else if key == "build-date"@ {
        Some(report.build_date@)
    } else if key == "crash-reporter-version"@ {
        Some(report.reporter_version@)
    } else if key == "component-version"@ {
        opt_view(report.component_version)
    } else if key == "restart-count"@ {
        opt_view(report.restart_count)
    } else if key == "runtime-seconds"@ {
        opt_view(report.runtime_seconds)
    } else {
        None
    }
}

proof fn lemma_tag_keys_differ()
    ensures
        "unit"@ != "job-result"@,
        "job-result"@ != "build-date"@,
        "build-version"@ != "build-channel"@,
        "build-version"@ != "restart-count"@,
        "build-channel"@ != "restart-count"@,
        "exit-code"@.len() == 9,
        "exit-status"@.len() == 11,
        "unit"@.len() == 4,
        "job-result"@.len() == 10,
        "build-version"@.len() == 13,
        "build-channel"@.len() == 13,
        "build-date"@.len() == 10,
        "crash-reporter-version"@.len() == 22,
        "component-version"@.len() == 17,
        "restart-count"@.len() == 13,
        "runtime-seconds"@.len() == 15,
{
    reveal_strlit("unit");
    reveal_strlit("job-result");
    reveal_strlit("exit-code");
    reveal_strlit("exit-status");
    reveal_strlit("build-version");
    reveal_strlit("build-channel");
    reveal_strlit("build-date");
    reveal_strlit("crash-reporter-version");
    reveal_strlit("component-version");
    reveal_strlit("restart-count");
    reveal_strlit("runtime-seconds");
    assert("job-result"@[0] != "build-date"@[0]);
    assert("build-version"@[6] != "build-channel"@[6]);
    assert("build-version"@[0] != "restart-count"@[0]);
    assert("build-channel"@[0] != "restart-count"@[0]);
}

/// Each tag of a crash report carries the field it is named after, and every
/// field that the report has is carried by its tag.
pub proof fn lemma_crash_tags_carry_their_fields(report: CrashReport)
    ensures
        forall|i: int|
            0 <= i < crash_tags_of(report).len() ==> report_field(
                report,
                (#[trigger] crash_tags_of(report)[i]).0,
            ) == Some(crash_tags_of(report)[i].1),
        forall|key: Seq<char>|
            #[trigger] report_field(report, key) matches Some(v) ==> crash_tags_of(report).contains(
                (key, v),
            ),
{
    lemma_tag_keys_differ();
    let t = crash_tags_of(report);
    let c = optional_tag("component-version"@, opt_view(report.component_version));
    let r = optional_tag("restart-count"@, opt_view(report.restart_count));
    let u = optional_tag("runtime-seconds"@, opt_view(report.runtime_seconds));
    let fixed = seq![
        ("unit"@, report.unit@),
        ("job-result"@, report.job_result@),
        ("exit-code"@, report.exit_code@),
        ("exit-status"@, report.exit_status@),
        ("build-version"@, report.build_version@),
        ("build-channel"@, report.build_channel@),
        ("build-date"@, report.build_date@),
        ("crash-reporter-version"@, report.reporter_version@),
    ];
    assert(t =~= fixed + c + r + u);
    assert forall|i: int| 0 <= i < t.len() implies report_field(report, (#[trigger] t[i]).0) == Some(
        t[i].1,
    ) by {
        if i >= 8 {
            if i < 8 + c.len() {
                assert(t[i] == c[i - 8]);
            } else if i < 8 + c.len() + r.len() {
                assert(t[i] == r[i - 8 - c.len()]);
            } else {
                assert(t[i] == u[i - 8 - c.len() - r.len()]);
            }
        }
    }
    assert forall|key: Seq<char>| #[trigger] report_field(report, key) is Some implies t.contains(
        (key, report_field(report, key)->0),
    ) by {
        let v = report_field(report, key)->0;
        if key == "unit"@ {
            assert(t[0] == (key, v));
        } else if key == "job-result"@ {
            assert(t[1] == (key, v));
        } else if key == "exit-code"@ {
            assert(t[2] == (key, v));
        } else if key == "exit-status"@ {
            assert(t[3] == (key, v));
        } else if key == "build-version"@ {
            assert(t[4] == (key, v));
        } else if key == "build-channel"@ {
            assert(t[5] == (key, v));
        } else if key == "build-date"@ {
            assert(t[6] == (key, v));
        } else if key == "crash-reporter-version"@ {
            assert(t[7] == (key, v));
        } else if key == "component-version"@ {
            assert(t[8] == (key, v));
        } else if key == "restart-count"@ {
            assert(t[8 + c.len() as int] == (key, v));
        } else {
            assert(t[8 + c.len() as int + r.len() as int] == (key, v));
        }
    }
}

/// A value that sanitizing leaves as it is.
pub open spec fn is_sanitized(v: Seq<char>) -> bool {
    sanitized_technical_value(v) == v
}

proof fn lemma_sanitized_tags_fixed(tags: Seq<(Seq<char>, Seq<char>)>)
    requires
        forall|i: int|
            0 <= i < tags.len() ==> is_allowed_event_tag(#[trigger] tags[i].0) && is_sanitized(
                tags[i].1,
            ),
    ensures
        sanitized_tags(tags) == tags,
    decreases tags.len(),
{
    if tags.len() > 0 {
        let init = tags.drop_last();
        assert forall|i: int| 0 <= i < init.len() implies is_allowed_event_tag(#[trigger] init[i].0)
            && is_sanitized(init[i].1) by {
            assert(init[i] == tags[i]);
        }
        lemma_sanitized_tags_fixed(init);
        assert(tags[tags.len() - 1] == tags.last());
        assert(init.push(tags.last()) =~= tags);
    }
}

/// The tags of a crash report whose values are sanitized pass the event
/// sanitizer unchanged: the report loses none of them on its way out.
pub proof fn lemma_crash_tags_survive_sanitizing(report: CrashReport)
    requires
        is_sanitized(report.unit@),
        is_sanitized(report.job_result@),
        is_sanitized(report.exit_code@),
        is_sanitized(report.exit_status@),
        is_sanitized(report.build_version@),
        is_sanitized(report.build_channel@),
        is_sanitized(report.build_date@),
        is_sanitized(report.reporter_version@),
        report.component_version matches Some(v) ==> is_sanitized(v@),
        report.restart_count matches Some(v) ==> is_sanitized(v@),
        report.runtime_seconds matches Some(v) ==> is_sanitized(v@),
    ensures
        sanitized_tags(crash_tags_of(report)) == crash_tags_of(report),
{
    let t = crash_tags_of(report);
    assert forall|i: int| 0 <= i < t.len() implies is_allowed_event_tag(#[trigger] t[i].0)
        && is_sanitized(t[i].1) by {
    }
    lemma_sanitized_tags_fixed(t);
}


/// The values that the reporter puts in its tags are sanitized: a variable's
/// value, a command's value, and a runtime. With
/// `lemma_crash_tags_survive_sanitizing` this shows that the event sanitizer
/// keeps every tag of a report built from them.
pub proof fn lemma_reported_values_are_sanitized(
    raw: Option<Seq<char>>,
    stdout: Option<Seq<char>>,
    start_stdout: Option<Seq<char>>,
    exit_stdout: Option<Seq<char>>,
)
    ensures
        is_sanitized(monitor_value_of(raw)),
        command_value_of(stdout) matches Some(v) ==> is_sanitized(v),
        service_runtime_of(start_stdout, exit_stdout) matches Some(v) ==> is_sanitized(v),
{
    match raw {
        Some(v) => lemma_sanitize_technical_value_idempotent(v),
        None => lemma_sanitize_technical_value_idempotent(unknown_value()),
    }
    if let Some(out) = stdout {
        lemma_sanitize_technical_value_idempotent(out);
    }
    if let (Some(start), Some(exit)) = (
        command_value_of(start_stdout),
        command_value_of(exit_stdout),
    ) {
        if let (Some(a), Some(b)) = (parse_u64(start), parse_u64(exit)) {
            if a <= b {
                let n = ((b - a) / (MICROSECONDS_PER_SECOND as int)) as nat;
                lemma_decimal_is_sanitized(n);
            }
        }
    }
}

/// A decimal number of at most 20 digits is a sanitized value.
proof fn lemma_decimal_is_sanitized(n: nat)
    requires
        n <= u64::MAX,
    ensures
        is_sanitized(decimal(n)),
{
    assert(pow10(20) == 100000000000000000000) by {
        reveal_with_fuel(pow10, 21);
    }
    lemma_decimal_len(n, 20);
    let d = decimal(n);
    assert(all_technical(d)) by {
        assert forall|i: int| 0 <= i < d.len() implies is_technical_char(#[trigger] d[i]) by {
            assert(crate::text::is_digit(d[i]));
        }
    }
    lemma_trim_technical(d);
    lemma_keep_technical_fixed(d);
}

} // verus!
