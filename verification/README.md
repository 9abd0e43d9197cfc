# badgers

A coverage checker for Rust and Python projects: it reads LCOV tracefiles
into coverage snapshots, compares a pull request's head against its base,
and writes the GitHub comment, check run, Markdown, HTML and terminal
reports, keeping snapshots and report pointers in a storage branch or a GCS
bucket.

The library under `src/` is verified with Verus. Each public function states
in its contract what it returns; the properties that span functions (the
LCOV merge rule, normal forms, what the counts measure, how a comparison is
fixed by its inputs, that pointers never move back, the safety of report
text) are public proof functions in `src/laws.rs` and `src/pointer.rs`.

Layout:

- `src/lcov.rs`, `src/tracefile.rs`: the tracefile reader and its paths.
- `src/model.rs`, `src/normal.rs`: files, snapshots and their normal forms.
- `src/compare.rs`, `src/pct.rs`: comparisons and exact percentages.
- `src/render.rs`, `src/report_*.rs`, `src/summary.rs`, `src/pr_diff.rs`,
  `src/dirtree.rs`: the reports.
- `src/storage.rs`, `src/github_storage.rs`, `src/gcs.rs`, `src/pointer.rs`,
  `src/baseline_fetch.rs`, `src/snapshot_push.rs`, `src/fingerprint.rs`:
  storage keys, pointers and the checks on what is read back.
- `src/github.rs`, `src/setup_gcs.rs`, `src/cov.rs`, `src/python.rs`: the
  decisions of the GitHub client, the GCS setup and the commands.
- `app/`: the command-line program: arguments, files, processes, HTTP and
  serialisation around the library.
- `tests/`: tests of the library on concrete values.

Percentages are exact: coverage is the rational `covered / total` rounded to
hundredths of a percent, ties to even.
