# crash_reporter

Reports a failed systemd service of an espresso machine to Sentry, sending
only approved, bounded technical values.

- `src/` is the library, verified with Verus:
  - `text.rs`: whitespace, trimming, lines, words, decimal numbers and the
    filter that keeps technical characters;
  - `order.rs`: the lexicographic order of names;
  - `command.rs`: requests to run an outside program;
  - `report.rs`: the crash report: value sanitizing, event tags, the message,
    the `systemctl` and `dpkg-query` requests and the runtime of a unit;
  - `system_metrics.rs`: memory, disk, cgroup and process metrics, their
    selection and the context sanitizer.
- `app/` runs the commands, reads the files and talks to Sentry.
- `tests/` runs the library on concrete values.
