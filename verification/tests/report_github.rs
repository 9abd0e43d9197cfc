use badgers::compare::{BranchDiffCoverage, Comparison, Counts, DiffCoverage, FileDelta};
use badgers::github_storage::{DEFAULT_STORAGE_BRANCH, DEFAULT_STORAGE_PREFIX};
use badgers::report_github::{
    GithubArgs, MAX_CHECK_ANNOTATIONS, build_annotations, comment_marker, markdown_code_path,
    render_comment, same_commit_sha, validate_navigation_url, validate_report_url,
};
use badgers::report_github::{check_run_summary, check_run_title, legacy_marker_prefix, should_publish, uncovered_line_entries};

fn args() -> GithubArgs {
    GithubArgs {
        head: String::new(),
        base: None,
        git_diff: None,
        repo_root: String::new(),
        repo: "owner/repo".into(),
        pr: 5,
        head_sha: Some("0123456789abcdef0123456789abcdef01234567".into()),
        baseline_label: Some("exact abc1234".into()),
        report_url: Some("https://example.com/report".into()),
        markdown_report_url: Some("https://example.com/report.md".into()),
        files_changed_url: Some("https://github.com/owner/repo/pull/5/files".into()),
        storage_repo: None,
        storage_branch: DEFAULT_STORAGE_BRANCH.into(),
        storage_prefix: DEFAULT_STORAGE_PREFIX.into(),
        soft_fail: false,
        skip_comment: false,
        check_annotations: false,
    }
}

fn comparison() -> Comparison {
    Comparison {
        base_available: true,
        files: vec![FileDelta {
            path: "pkg/calc.py".into(),
            base: Some(Counts {
                covered: 2,
                executable: 2,
            }),
            head: Some(Counts {
                covered: 3,
                executable: 4,
            }),
            diff: DiffCoverage {
                relevant: 3,
                covered: 1,
                uncovered_lines: vec![5, 6, 7, 12],
            },
            base_branches: None,
            head_branches: None,
            branch_diff: BranchDiffCoverage::empty(),
        }],
    }
}

#[test]
fn renders_full_comment() {
    let body = render_comment("<!-- m -->", &comparison(), &args());
    assert!(body.starts_with("<!-- m -->\n"));
    assert!(body.contains("| **Total** | 75.00% (3/4) | 🔴 -25.00%p |"));
    assert!(body.contains("| **Diff** | 33.33% (1/3) | |"));
    assert!(body.contains("**Baseline**: exact abc1234 · **Head**: `0123456`"));
    assert!(body.contains("Uncovered changed lines (4)"));
    assert!(body.contains("- <code>pkg/calc.py</code>: L5-L7, L12"));
    assert!(body.contains(
        "**Reports:** <a href=\"https://example.com/report.md\">Detailed coverage report</a> · <a href=\"https://github.com/owner/repo/pull/5/files\">Files changed annotations</a> · <a href=\"https://example.com/report\">HTML report</a>"
    ));
}

#[test]
fn renders_exact_stored_report_path_and_view_command() {
    let mut a = args();
    a.storage_repo = Some("reports/archive".into());
    a.storage_branch = "coverage/reports".into();
    a.storage_prefix = "badgers/history".into();
    let body = render_comment("<!-- m -->", &comparison(), &a);
    assert!(body.contains(
        "<code>reports/archive@coverage/reports:badgers/history/repos/owner/repo/commits/0123456789abcdef0123456789abcdef01234567/html/index.html</code>"
    ));
    assert!(body.contains(
        "<pre><code>badgers view 5 --repo owner/repo --storage-repo reports/archive --storage-branch coverage/reports --storage-prefix badgers/history</code></pre>"
    ));
}

#[test]
fn comment_marker_is_stable_across_head_pushes() {
    let mut a = args();
    let first = comment_marker(&a).unwrap();
    assert_eq!(first, "<!-- badgers-report:owner/repo:5 -->");
    assert_eq!(comment_marker(&a).unwrap(), first);

    a.head_sha = Some("ABCDEF0123456789ABCDEF0123456789ABCDEF01".into());
    assert_eq!(comment_marker(&a).unwrap(), first);
}

#[test]
fn comment_marker_rejects_invalid_head_shas() {
    let mut a = args();
    for head_sha in [
        "abc123",
        "０１２３４５６７８９abcdef0123456789abcdef01234567",
        "0123456789abcdef0123456789abcdef0123456g",
        "0123456789abcdef0123456789abcdef0-->\nhi",
    ] {
        a.head_sha = Some(head_sha.into());
        assert!(comment_marker(&a).is_err(), "accepted {head_sha:?}");
    }

    a.head_sha = None;
    assert_eq!(
        comment_marker(&a).unwrap(),
        "<!-- badgers-report:owner/repo:5 -->"
    );
}

#[test]
fn current_head_comparison_is_case_insensitive_and_rejects_stale_runs() {
    assert!(same_commit_sha(
        "ABCDEF0123456789ABCDEF0123456789ABCDEF01",
        "abcdef0123456789abcdef0123456789abcdef01"
    ));
    assert!(!same_commit_sha(
        "0123456789abcdef0123456789abcdef01234567",
        "abcdef0123456789abcdef0123456789abcdef01"
    ));
}

#[test]
fn no_baseline_and_no_changed_lines() {
    let mut cmp = comparison();
    cmp.base_available = false;
    cmp.files[0].base = None;
    cmp.files[0].diff = DiffCoverage {
        relevant: 0,
        covered: 0,
        uncovered_lines: vec![],
    };
    let mut a = args();
    a.baseline_label = None;
    a.report_url = None;
    a.markdown_report_url = None;
    a.files_changed_url = None;
    let body = render_comment("<!-- m -->", &cmp, &a);
    assert!(body.contains("n/a (no baseline)"));
    assert!(body.contains("no measurable changed lines"));
    assert!(body.contains("**Baseline**: none"));
    assert!(!body.contains("<details>"));
    assert!(!body.contains("HTML report"));
}

#[test]
fn caps_ranges_per_file() {
    let mut cmp = comparison();
    cmp.files[0].diff.uncovered_lines = (0..30).map(|i| i * 2 + 1).collect();
    let body = render_comment("<!-- m -->", &cmp, &args());
    assert!(body.contains("… and 20 more"));
}

#[test]
fn builds_repo_relative_annotations_from_contiguous_ranges() {
    let (annotations, total) = build_annotations(&comparison(), "examples/python-sample/");
    assert_eq!(total, 2);
    assert_eq!(annotations.len(), 2);
    assert_eq!(annotations[0].path, "examples/python-sample/pkg/calc.py");
    assert_eq!((annotations[0].start_line, annotations[0].end_line), (5, 7));
    assert_eq!(
        (annotations[1].start_line, annotations[1].end_line),
        (12, 12)
    );
    assert_eq!(annotations[0].annotation_level, "warning");
    assert_eq!(annotations[0].message, "Changed executable lines 5-7 are not covered.");
    assert_eq!(annotations[1].message, "Changed executable line 12 are not covered.");
}

#[test]
fn escapes_markdown_in_comment_paths() {
    assert_eq!(
        markdown_code_path("pkg/a`b_[x].py"),
        "<code>pkg/a&#x60;b&#x5F;&#x5B;x&#x5D;.py</code>"
    );
}

#[test]
fn caps_check_annotation_ranges() {
    let mut cmp = comparison();
    cmp.files[0].diff.uncovered_lines = (0..=MAX_CHECK_ANNOTATIONS)
        .map(|index| u32::try_from(index * 2 + 1).unwrap())
        .collect();
    let (annotations, total) = build_annotations(&cmp, "");
    assert_eq!(annotations.len(), MAX_CHECK_ANNOTATIONS);
    assert_eq!(total, MAX_CHECK_ANNOTATIONS + 1);
}

#[test]
fn rejects_unsafe_navigation_urls() {
    assert!(validate_navigation_url(Some("http://example.com"), "report URL").is_err());
    assert!(
        validate_navigation_url(Some("https://user@example.com/report"), "report URL").is_err()
    );
    assert!(
        validate_navigation_url(Some("https://example.com/report#fragment"), "report URL")
            .is_err()
    );
}

#[test]
fn preserves_legacy_html_report_url_compatibility_and_escapes_links() {
    let mut a = args();
    a.markdown_report_url = None;
    a.files_changed_url = None;
    a.report_url = Some("http://example.com/report?view=full&tab=files#summary".into());
    assert!(validate_report_url(a.report_url.as_deref()).is_ok());

    let body = render_comment("<!-- m -->", &comparison(), &a);
    assert!(body.contains(
        "<a href=\"http://example.com/report?view=full&amp;tab=files#summary\">HTML report</a>"
    ));
    assert!(validate_report_url(Some("javascript:alert(1)")).is_err());
    assert!(validate_report_url(Some("https://user@example.com/report")).is_err());
}

#[test]
fn delta_cells_round_and_mark_direction() {
    let mut cmp = comparison();
    cmp.files[0].base = Some(Counts { covered: 1, executable: 3 });
    cmp.files[0].head = Some(Counts { covered: 2, executable: 3 });
    let body = render_comment("<!-- m -->", &cmp, &args());
    assert!(body.contains("| **Total** | 66.67% (2/3) | 🟢 +33.33%p |"), "{body}");
    cmp.files[0].base = Some(Counts { covered: 2, executable: 3 });
    let body = render_comment("<!-- m -->", &cmp, &args());
    assert!(body.contains("| ➖ ±0.00%p |"), "{body}");
    cmp.base_available = true;
    cmp.files[0].base = None;
    let body = render_comment("<!-- m -->", &cmp, &args());
    assert!(body.contains("| n/a |"), "{body}");
}

#[test]
fn navigation_url_messages_name_the_label() {
    assert_eq!(
        validate_navigation_url(Some("ftp://x"), "Files changed URL").unwrap_err(),
        "Files changed URL must use https://"
    );
    assert_eq!(
        validate_navigation_url(Some("https:///x"), "Files changed URL").unwrap_err(),
        "Files changed URL contains unsafe characters or components"
    );
    assert!(validate_navigation_url(None, "x").is_ok());
    assert_eq!(
        validate_report_url(Some("http://a b")).unwrap_err(),
        "HTML report URL contains unsafe characters or components"
    );
}

#[test]
fn publishing_and_check_run_text() {
    assert_eq!(legacy_marker_prefix(&args()), format!("<!-- badgers-report:{}:{}:", args().repo, args().pr));
    assert!(should_publish(None, None));
    assert!(should_publish(Some("ABC"), Some("abc")));
    assert!(!should_publish(Some("abc"), Some("abd")));
    assert!(!should_publish(Some("abc"), None));
    assert_eq!(check_run_title(0), "All changed executable lines are covered");
    assert_eq!(check_run_title(3), "Changed executable lines need coverage");
    assert_eq!(
        check_run_summary(7, 4, 4),
        "7 uncovered changed executable lines across 4 annotation ranges."
    );
    assert_eq!(
        check_run_summary(2000, 1500, 1000),
        "2000 uncovered changed executable lines across 1500 annotation ranges. Limited to the first 1000 ranges."
    );
    let c = comparison();
    let expected: usize = c.files.iter().map(|f| f.diff.uncovered_lines.len()).sum();
    assert_eq!(uncovered_line_entries(&c), expected);
}

#[test]
fn report_preconditions_can_be_tested() {
    let c = comparison();
    assert!(badgers::report_github::comparison_totals_fit(&c));
    assert!(badgers::report_github::uncovered_total_fits(&c));
    assert!(badgers::render::comparison_summary_fits(&c));
    assert!(badgers::render::uncovered_count_fits(&c));
    let mut big = comparison();
    let mut second = big.files[0].clone();
    second.path = "pkg/other.py".into();
    second.head = Some(Counts { covered: u64::MAX, executable: u64::MAX });
    big.files.push(second);
    assert!(!badgers::report_github::comparison_totals_fit(&big));
    assert!(!badgers::render::comparison_summary_fits(&big));
    let mut wide = comparison();
    wide.files[0].diff.relevant = u32::MAX;
    let mut more = wide.files[0].clone();
    more.path = "pkg/z.py".into();
    wide.files.push(more);
    assert!(!badgers::compare::diff_totals_fit(&wide.files));
}

#[test]
fn github_api_url_must_be_safe_https() {
    use_validate_api_url();
}

fn use_validate_api_url() {
    let v = badgers::report_github::validate_api_url;
    assert!(v("https://api.github.com").is_ok());
    assert!(v("https://ghe.example.com/api/v3").is_ok());
    assert_eq!(v("http://api.github.com").unwrap_err(), "GITHUB_API_URL must use https://");
    for bad in ["https://", "https://user@host", "https://host/a b", "https:///path"] {
        assert_eq!(v(bad).unwrap_err(), "GITHUB_API_URL contains unsafe components", "{bad}");
    }
}
