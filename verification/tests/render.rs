use badgers::compare::{
    BranchDiffCoverage, ChangedLines, Comparison, ComparisonAnalysis, ComparisonDocument, Counts,
    CoverageScopeChange, DiffCoverage, FileDelta, compare, COMPARISON_SCHEMA_VERSION,
};
use badgers::cov::comparison_exit_code;
use badgers::model::{CoverageSnapshot, FileCoverage, Language, LineHit, ToolVersions};
use badgers::pr_diff::render;
use badgers::render::{
    RenderOptions, bounded_scope_entries, escape_path, file_uncovered_count, format_delta,
    format_range, line_ranges, render_comparison, render_comparison_analysis,
    render_comparison_with_options, render_omitted_scope_count, sorted_unique_lines,
    uncovered_count,
};

const HEAD_SHA: &str = "0123456789abcdef0123456789abcdef01234567";

fn delta(path: &str, base: Option<(u64, u64)>, head: Option<(u64, u64)>, diff: (u32, u32, Vec<u32>)) -> FileDelta {
    FileDelta {
        path: path.into(),
        base: base.map(|(covered, executable)| Counts { covered, executable }),
        head: head.map(|(covered, executable)| Counts { covered, executable }),
        diff: DiffCoverage {
            relevant: diff.0,
            covered: diff.1,
            uncovered_lines: diff.2,
        },
        base_branches: None,
        head_branches: None,
        branch_diff: BranchDiffCoverage::empty(),
    }
}

fn document() -> ComparisonDocument {
    ComparisonDocument {
        schema_version: COMPARISON_SCHEMA_VERSION,
        head_sha: HEAD_SHA.into(),
        base_sha: Some("89abcdef0123456789abcdef0123456789abcdef".into()),
        comparison: Comparison {
            base_available: true,
            files: vec![
                delta("src/store.rs", Some((2, 2)), Some((1, 2)), (1, 0, vec![91])),
                delta("src/parser.rs", Some((1, 1)), Some((1, 3)), (3, 1, vec![48, 42, 47, 47])),
            ],
        },
    }
}

#[test]
fn renders_compact_deterministic_diff() {
    assert_eq!(
        render(547, &document()),
        "Coverage diff: 4 uncovered changed executable lines\n\
PR: #547 @ 0123456\n\
Total coverage: 40.00% (-60.00pp)\n\
Changed-line coverage: 25.00% (1/4)\n\
src/parser.rs:42,47-48 [changed-uncovered]\n\
src/store.rs:91 [changed-uncovered]\n"
    );
}

#[test]
fn escapes_control_characters_in_paths() {
    assert_eq!(
        escape_path("src/line\nname\\file.rs"),
        "src/line\\nname\\\\file.rs"
    );
}

#[test]
fn renders_no_uncovered_lines_without_a_baseline() {
    let mut document = document();
    document.comparison.base_available = false;
    document.comparison.files.clear();
    assert_eq!(
        render(7, &document),
        "Coverage diff: no uncovered changed executable lines\n\
PR: #7 @ 0123456\n\
Total coverage: n/a (no baseline)\n\
Changed-line coverage: n/a (0/0)\n"
    );
}

fn comparison_with_uncovered_line() -> Comparison {
    let head = CoverageSnapshot::new(
        "owner/repo".into(),
        "0123456789abcdef0123456789abcdef01234567".into(),
        None,
        None,
        "2026-07-21T00:00:00Z".into(),
        ToolVersions {
            badgers: "0.1.1".into(),
            cargo_llvm_cov: None,
            coverage_py: None,
        },
        vec![FileCoverage::new(
            "src/lib.rs".into(),
            Language::Rust,
            vec![LineHit { line: 10, hits: 1 }, LineHit { line: 11, hits: 0 }],
        )],
    );
    let mut changed = ChangedLines::new();
    changed.insert("src/lib.rs", 10);
    changed.insert("src/lib.rs", 11);
    compare(None, &head, &changed)
}

#[test]
fn renders_local_dirty_header_and_comparison() {
    let comparison = comparison_with_uncovered_line();
    assert_eq!(
        render_comparison("Local: feat/my-branch @ 0123456 (dirty)", &comparison),
        "Coverage diff: 1 uncovered changed executable line\n\
Local: feat/my-branch @ 0123456 (dirty)\n\
Total coverage: 50.00% (no baseline)\n\
Changed-line coverage: 50.00% (1/2)\n\
src/lib.rs:11 [changed-uncovered]\n"
    );
}

#[test]
fn uncovered_lines_control_exit_code_unless_no_fail_is_set() {
    let comparison = comparison_with_uncovered_line();
    assert_eq!(comparison_exit_code(&comparison, false), 1);
    assert_eq!(comparison_exit_code(&comparison, true), 0);

    let clean = Comparison {
        base_available: false,
        files: Vec::new(),
    };
    assert_eq!(comparison_exit_code(&clean, false), 0);
}

#[test]
fn distinct_lines_are_sorted_and_counted_once() {
    assert_eq!(sorted_unique_lines(&[48, 42, 47, 47]), vec![42, 47, 48]);
    assert_eq!(sorted_unique_lines(&[]), Vec::<u32>::new());
    let file = delta("a.rs", None, Some((0, 4)), (4, 0, vec![3, 1, 3, 2, 1]));
    assert_eq!(file_uncovered_count(&file), 3);
    assert_eq!(uncovered_count(&document().comparison), 4);
}

#[test]
fn ranges_are_plain_numbers() {
    assert_eq!(format_range(5, 5), "5");
    assert_eq!(format_range(5, 7), "5-7");
    assert_eq!(line_ranges(&[1, 2, 3, 7, 9, 10]), vec!["1-3", "7", "9-10"]);
    assert_eq!(line_ranges(&[u32::MAX, u32::MAX]), vec![u32::MAX.to_string()]);
}

#[test]
fn escapes_other_control_characters_as_unicode_escapes() {
    assert_eq!(escape_path("a\tb\rc\u{1b}d\u{7f}é\"'"), "a\\tb\\rc\\u{1b}d\\u{7f}é\"'");
    assert_eq!(escape_path("\u{85}"), "\\u{85}");
}

#[test]
fn delta_text_covers_every_case() {
    let mut comparison = document().comparison;
    assert_eq!(format_delta(&comparison, None), "-60.00pp");
    comparison.files[0].head = Some(Counts { covered: 2, executable: 2 });
    comparison.files[1].head = Some(Counts { covered: 1, executable: 1 });
    assert_eq!(format_delta(&comparison, None), "+0.00pp");
    comparison.files[0].head = Some(Counts { covered: 0, executable: 0 });
    comparison.files[1].head = None;
    assert_eq!(format_delta(&comparison, None), "n/a");
    comparison.base_available = false;
    assert_eq!(format_delta(&comparison, None), "no baseline");
}

fn analysis_with_scope(appeared: Vec<String>, disappeared: Vec<String>) -> ComparisonAnalysis {
    let mut analysis = ComparisonAnalysis::new(document().comparison);
    analysis.scope_change = CoverageScopeChange { appeared, disappeared };
    analysis
}

#[test]
fn scope_change_suppresses_the_delta_and_lists_entries() {
    let analysis = analysis_with_scope(vec!["b.rs".into(), "a\n.rs".into()], vec!["gone.rs".into()]);
    assert_eq!(format_delta(&analysis.comparison, Some(&analysis)), "coverage scope changed");
    assert_eq!(
        render_comparison_analysis("ctx", &analysis),
        "Coverage diff: 4 uncovered changed executable lines\n\
ctx\n\
Total coverage: 40.00% (coverage scope changed)\n\
Changed-line coverage: 25.00% (1/4)\n\
Coverage scope changed; aggregate delta suppressed\n\
appeared: a\\n.rs\n\
appeared: b.rs\n\
disappeared: gone.rs\n\
src/parser.rs:42,47-48 [changed-uncovered]\n\
src/store.rs:91 [changed-uncovered]\n"
    );
}

#[test]
fn scope_entries_are_bounded_to_one_hundred() {
    let appeared: Vec<String> = (0..105).map(|i| format!("p{i:03}.rs")).collect();
    let analysis = analysis_with_scope(appeared, Vec::new());
    let (entries, omitted) = bounded_scope_entries(&analysis);
    assert_eq!(entries.len(), 100);
    assert_eq!(omitted, 5);
    assert_eq!(entries[0].path, "p000.rs");
    let mut out = String::from("x\n");
    render_omitted_scope_count(&mut out, omitted);
    assert_eq!(out, "x\n... and 5 more\n");
    let mut none = String::new();
    render_omitted_scope_count(&mut none, 0);
    assert_eq!(none, "");
}

#[test]
fn repo_wide_summary_names_uncovered_lines() {
    assert_eq!(
        render_comparison_with_options("Local: main @ abc", &document().comparison, RenderOptions::repo_wide()),
        "Coverage: 4 uncovered executable lines\n\
Local: main @ abc\n\
Total coverage: 40.00% (-60.00pp)\n\
src/parser.rs:42,47-48 [uncovered]\n\
src/store.rs:91 [uncovered]\n"
    );
}

#[test]
fn files_of_equal_path_keep_their_order() {
    let comparison = Comparison {
        base_available: false,
        files: vec![
            delta("b.rs", None, Some((0, 1)), (1, 0, vec![2])),
            delta("a.rs", None, Some((0, 1)), (1, 0, vec![1])),
            delta("b.rs", None, Some((0, 1)), (1, 0, vec![1])),
            delta("c.rs", None, Some((1, 1)), (1, 1, vec![])),
        ],
    };
    assert_eq!(
        render_comparison("ctx", &comparison),
        "Coverage diff: 3 uncovered changed executable lines\n\
ctx\n\
Total coverage: 25.00% (no baseline)\n\
Changed-line coverage: 25.00% (1/4)\n\
a.rs:1 [changed-uncovered]\n\
b.rs:2 [changed-uncovered]\n\
b.rs:1 [changed-uncovered]\n"
    );
}

#[test]
fn short_head_sha_is_taken_whole() {
    let mut document = document();
    document.head_sha = "abc".into();
    document.comparison.files.clear();
    assert!(render(1, &document).contains("PR: #1 @ abc\n"));
}

#[test]
fn summary_table_aligns_columns_by_path_bytes() {
    let snapshot = CoverageSnapshot::new(
        "owner/repo".into(),
        "abc".into(),
        None,
        None,
        "2026-07-21T00:00:00Z".into(),
        ToolVersions {
            badgers: "0.1.1".into(),
            cargo_llvm_cov: None,
            coverage_py: None,
        },
        vec![
            FileCoverage::new(
                "src/app.py".into(),
                Language::Python,
                vec![
                    LineHit { line: 1, hits: 3 },
                    LineHit { line: 2, hits: 0 },
                    LineHit { line: 3, hits: 0 },
                    LineHit { line: 4, hits: 0 },
                ],
            ),
            FileCoverage::new("é.py".into(), Language::Python, vec![]),
        ],
    );
    assert_eq!(
        badgers::summary::render(&snapshot),
        "File          Lines  Covered  Coverage\nsrc/app.py        4        1    25.00%\né.py              0        0       n/a\nTOTAL             4        1    25.00%\n"
    );
}
