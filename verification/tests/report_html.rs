use badgers::compare::{
    BranchDiffCoverage, ChangedLines, Comparison, ComparisonAnalysis, Counts, CoverageScopeChange,
    DiffCoverage, FileDelta,
};
use badgers::model::{CoverageSnapshot, FileCoverage, Language, LineHit, ToolVersions};
use badgers::report_html::{
    check_tree_commit, normalize_tree_path, read_bounded, render_file_page, render_index,
    render_scope_notice, sanitize_git_stderr, tree_paths,
};
use badgers::report_html::{page_name, report_pages};

fn snapshot() -> CoverageSnapshot {
    CoverageSnapshot::new(
        "owner/repo".into(),
        "abcdef1234567890".into(),
        None,
        None,
        "2026-07-23T00:00:00Z".into(),
        ToolVersions {
            badgers: "1.2.0".into(),
            cargo_llvm_cov: None,
            coverage_py: None,
        },
        vec![],
    )
}

fn delta(path: &str, base: Option<(u64, u64)>, head: Option<(u64, u64)>, diff: (u32, u32, Vec<u32>)) -> FileDelta {
    FileDelta {
        path: path.into(),
        base: base.map(|(covered, executable)| Counts { covered, executable }),
        head: head.map(|(covered, executable)| Counts { covered, executable }),
        diff: DiffCoverage {
            relevant: diff.0,
            covered: diff.1,
            uncovered_lines: diff.2,
        },
        base_branches: None,
        head_branches: None,
        branch_diff: BranchDiffCoverage::empty(),
    }
}

#[test]
fn html_explains_scope_change_and_suppresses_aggregate_deltas() {
    let snapshot = snapshot();
    let comparison = ComparisonAnalysis {
        comparison: Comparison {
            base_available: true,
            files: vec![delta("pkg/steady.py", Some((1, 2)), Some((2, 2)), (1, 1, vec![]))],
        },
        scope_change: CoverageScopeChange {
            appeared: vec!["pkg/appeared.py".into()],
            disappeared: vec!["pkg/disappeared.py".into()],
        },
    };

    let html = render_index(&snapshot, &comparison);

    assert!(html.contains("Coverage scope changed."));
    assert!(html.contains("Aggregate deltas are suppressed"));
    assert!(html.contains("pkg/appeared.py"));
    assert!(html.contains("pkg/disappeared.py"));
    assert!(html.contains("<span class=\"flat\">n/a</span> coverage scope changed"));
    assert!(html.contains("<span class=\"up\">+50.00%p</span>"));
}

#[test]
fn html_scope_paths_are_escaped_and_bounded() {
    let mut analysis = ComparisonAnalysis::new(Comparison {
        base_available: true,
        files: vec![],
    });
    analysis.scope_change.appeared = (0..=100).map(|index| format!("scope/{index:03}.py")).collect();
    analysis.scope_change.appeared[0] = "scope/\ncontrol.py".into();

    let html = render_scope_notice(&analysis);

    assert!(html.contains("scope/\\ncontrol.py"));
    assert!(!html.contains("scope/\ncontrol.py"));
    assert!(html.contains("... and 1 more"));
    assert!(!html.contains("scope/100.py"));
}

#[test]
fn normalizes_git_tree_paths_relative_to_repo_root() {
    assert_eq!(normalize_tree_path("./pkg\\module.py"), "pkg/module.py");
}

#[test]
fn rejects_invalid_tree_commit_ids_and_sanitizes_git_errors() {
    let error = check_tree_commit("--help\n::error::bad").unwrap_err();
    assert_eq!(error, "git tree commit ID must be exactly 40 ASCII hexadecimal characters");
    assert!(check_tree_commit("0123456789abcdef0123456789abcdef01234567").is_ok());

    assert_eq!(
        sanitize_git_stderr(b"fatal\r\n::error::injected"),
        "fatal\\r\\n::error::injected"
    );
    let sanitized = sanitize_git_stderr(&vec![b'x'; 600]);
    assert_eq!(sanitized.chars().count(), 513);
    assert!(sanitized.ends_with('…'));
}

#[test]
fn bounded_reader_accepts_limit_and_rejects_limit_plus_one() {
    assert_eq!(read_bounded(b"1234".to_vec(), 4, "test output").unwrap(), b"1234");
    let error = read_bounded(b"12345".to_vec(), 4, "test output").unwrap_err();
    assert_eq!(error, "test output exceeds 4 bytes");
}

#[test]
fn tree_paths_skip_empty_and_non_utf8_fields() {
    let mut out = b"./src/a.py\0src\\b.py\0\0".to_vec();
    out.extend_from_slice(&[b'x', 0xff, 0]);
    out.extend_from_slice(b"c.py");
    assert_eq!(tree_paths(&out), vec!["src/a.py", "src/b.py", "c.py"]);
    assert_eq!(tree_paths(b""), Vec::<String>::new());
}

#[test]
fn sanitizing_escapes_quotes_and_unicode() {
    assert_eq!(sanitize_git_stderr("é'\"\u{7}".as_bytes()), "\\u{e9}\\'\\\"\\u{7}");
}

#[test]
fn index_tree_merges_single_child_directories() {
    let comparison = ComparisonAnalysis::new(Comparison {
        base_available: false,
        files: vec![
            delta("apps/x/src/x/main.py", None, Some((1, 2)), (0, 0, vec![])),
            delta("top.py", None, Some((0, 0)), (0, 0, vec![])),
            delta("gone.py", Some((1, 1)), None, (0, 0, vec![])),
        ],
    });
    let html = render_index(&snapshot(), &comparison);
    assert!(html.contains("<div class=\"meta\">owner/repo @ abcdef1 · generated 2026-07-23T00:00:00Z</div>"));
    assert!(html.contains(
        "<details class=\"dirnode\" open><summary class=\"row dir\">\n<span class=\"cell name\" style=\"padding-left:12px\">apps/x/src/x/</span>\n<span class=\"cell\">2</span><span class=\"cell\">1</span>\n<span class=\"cell\">50.00%</span><span class=\"cell\"><span class=\"flat\">n/a</span></span>\n<span class=\"cell\">–</span></summary>\n"
    ));
    assert!(html.contains(
        "<span class=\"cell name\" style=\"padding-left:48px\"><a href=\"file-0.html\">main.py</a></span>"
    ));
    assert!(html.contains(
        "<span class=\"cell name\" style=\"padding-left:30px\"><a href=\"file-1.html\">top.py</a></span>\n<span class=\"cell\">0</span><span class=\"cell\">0</span>\n<span class=\"cell\"><span class=\"flat\">no executable lines</span></span>"
    ));
    assert!(html.contains("<span class=\"removed\">gone.py (removed)</span>"));
    assert!(html.contains("<div class=\"sub\">1/2 lines · <span class=\"flat\">n/a</span> no base snapshot</div>"));
}

#[test]
fn file_page_marks_covered_uncovered_and_changed_lines() {
    let file = FileCoverage::new(
        "pkg/a.py".into(),
        Language::Python,
        vec![LineHit { line: 1, hits: 2 }, LineHit { line: 2, hits: 0 }],
    );
    let mut changed = ChangedLines::new();
    changed.insert("pkg/a.py", 2);
    changed.insert("pkg/a.py", 3);
    let d = delta("pkg/a.py", Some((1, 2)), Some((1, 2)), (1, 0, vec![2]));
    let page = render_file_page(&file, &d, &changed, Some("x = 1\ny = <2>\r\n# c\n"));
    assert!(page.contains("<title>pkg/a.py - Badgers Coverage</title>"));
    assert!(page.contains("coverage 50.00% · <span class=\"flat\">±0.00%p</span> · diff coverage 0.00% (0/1)"));
    assert!(page.contains("<div class=\"uncovered-links\">Uncovered changed lines: <a href=\"#L2\">L2</a></div>"));
    assert!(page.contains("<tr id=\"L1\" class=\"cov\"><td class=\"ln\"><a href=\"#L1\">1</a></td><td class=\"hits\">2</td><td class=\"chg\"></td><td>x = 1</td></tr>\n"));
    assert!(page.contains("<tr id=\"L2\" class=\"miss changed\"><td class=\"ln\"><a href=\"#L2\">2</a></td><td class=\"hits\">0</td><td class=\"chg\"></td><td>y = &lt;2&gt;</td></tr>\n"));
    assert!(page.contains("<tr id=\"L3\" class=\"changed\"><td class=\"ln\"><a href=\"#L3\">3</a></td><td class=\"hits\"></td><td class=\"chg\"></td><td># c</td></tr>\n"));

    let missing = render_file_page(&file, &d, &changed, None);
    assert!(missing.contains("Source file not found in checkout"));
    assert!(missing.contains("<td>(source not available)</td>"));

    let empty_file = FileCoverage::new("e.py".into(), Language::Python, vec![]);
    let e = delta("e.py", None, Some((0, 0)), (0, 0, vec![]));
    let empty = render_file_page(&empty_file, &e, &changed, Some(""));
    assert!(empty.contains("coverage empty file"));
    assert!(empty.contains("This file is empty"));
    let comments = render_file_page(&empty_file, &e, &changed, Some("# only\n"));
    assert!(comments.contains("coverage no executable lines"));
    assert!(comments.contains("No executable lines"));
}

#[test]
fn pages_are_written_for_files_present_in_head() {
    let mut head = snapshot();
    head.files = vec![
        FileCoverage::new("a.rs".into(), Language::Rust, vec![LineHit { line: 1, hits: 1 }]),
        FileCoverage::new("c.rs".into(), Language::Rust, vec![LineHit { line: 1, hits: 0 }]),
    ];
    let files = vec![
        delta("a.rs", Some((1, 1)), Some((1, 1)), (0, 0, vec![])),
        delta("b.rs", Some((1, 1)), None, (0, 0, vec![])),
        delta("c.rs", None, Some((0, 1)), (0, 0, vec![])),
    ];
    assert_eq!(report_pages(&head, &files), vec![Some(0), None, Some(1)]);
    assert_eq!(page_name(2), "file-2.html");
}
