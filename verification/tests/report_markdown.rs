use badgers::compare::{BranchDiffCoverage, Comparison, Counts, DiffCoverage, FileDelta};
use badgers::model::{CoverageSnapshot, ToolVersions};
use badgers::report_github::short_sha;
use badgers::report_markdown::{
    code_path, default_source_url, encode_path, file_link, html_attr_escape, html_link,
    line_link, line_ranges, markdown_html_text, render, render_changed_files,
    valid_commit_sha, valid_relative_source_path, valid_repo_slug, validate_https_url,
    visible_path,
};

fn snapshot() -> CoverageSnapshot {
    CoverageSnapshot::new(
        "owner/repo".into(),
        "abcdef1234567890".into(),
        None,
        Some(7),
        "2026-07-19T00:00:00Z".into(),
        ToolVersions {
            badgers: "0.1.1".into(),
            cargo_llvm_cov: None,
            coverage_py: Some("7.6".into()),
        },
        vec![],
    )
}

fn delta(path: &str, base: Option<(u64, u64)>, head: Option<(u64, u64)>, diff: (u32, u32, Vec<u32>)) -> FileDelta {
    FileDelta {
        path: path.into(),
        base: base.map(|(covered, executable)| Counts { covered, executable }),
        head: head.map(|(covered, executable)| Counts { covered, executable }),
        diff: DiffCoverage {
            relevant: diff.0,
            covered: diff.1,
            uncovered_lines: diff.2,
        },
        base_branches: None,
        head_branches: None,
        branch_diff: BranchDiffCoverage::empty(),
    }
}

#[test]
fn renders_nested_tree_and_changed_line_links() {
    let comparison = Comparison {
        base_available: true,
        files: vec![delta("apps/api/src/app.py", Some((2, 2)), Some((2, 4)), (3, 1, vec![4, 5]))],
    };
    let markdown = render(
        &snapshot(),
        &comparison,
        Some("https://github.com/owner/repo/blob/abcdef1"),
        Some("https://github.com/owner/repo/pull/7/files"),
    );
    assert!(markdown.contains("<summary>📁 <strong>apps/</strong>"));
    assert!(markdown.contains("<summary>&#x2003;📁 <strong>api/</strong>"));
    assert!(markdown.contains("<summary>&#x2003;&#x2003;📁 <strong>src/</strong>"));
    assert!(markdown.contains(
        "<a href=\"https://github.com/owner/repo/blob/abcdef1/apps/api/src/app.py\"><code>apps/api/src/app.py</code></a>"
    ));
    assert!(markdown.contains(
        "<a href=\"https://github.com/owner/repo/blob/abcdef1/apps/api/src/app.py#L4-L5\">L4-L5</a>"
    ));
    assert!(markdown.contains("50.00% (2/4)"));
    assert!(markdown.contains("33.33% (1/3)"));
    assert!(markdown.contains(
        "<a href=\"https://github.com/owner/repo/pull/7/files\">Files changed and annotations</a>"
    ));
    assert!(markdown.contains("<details open>\n<summary>"));
    assert!(
        markdown.find("## Changed executable lines").unwrap()
            < markdown.find("## Coverage by path").unwrap()
    );
}

#[test]
fn opens_only_changed_files_with_uncovered_lines() {
    let comparison = Comparison {
        base_available: false,
        files: vec![
            delta("pkg/uncovered.py", None, Some((1, 2)), (2, 1, vec![2])),
            delta("pkg/covered.py", None, Some((2, 2)), (2, 2, vec![])),
        ],
    };
    let mut markdown = String::new();
    render_changed_files(&comparison, None, &mut markdown);

    assert!(markdown.contains(
        "<details open>\n<summary><code>pkg/uncovered.py</code> — 50.00% (1/2)</summary>"
    ));
    assert!(markdown.contains(
        "<details>\n<summary><code>pkg/covered.py</code> — 100.00% (2/2)</summary>"
    ));
    assert!(!markdown.contains("<details open>\n<summary><code>pkg/covered.py</code>"));
}

#[test]
fn path_encoding_and_range_compression() {
    assert_eq!(encode_path("pkg/my file.py"), "pkg/my%20file.py");
    assert_eq!(line_ranges(&[1, 2, 4, 8, 9]), vec![(1, 2), (4, 4), (8, 9)]);
}

#[test]
fn default_link_uses_snapshot_repo_and_commit() {
    assert_eq!(
        default_source_url(&snapshot()).as_deref(),
        Some("https://github.com/owner/repo/blob/abcdef1234567890")
    );
}

#[test]
fn renders_hostile_legal_paths_as_safe_html() {
    let path = "pkg/a`b|c\n.py";
    let link = file_link(path, Some("https://github.com/owner/repo/blob/abcdef1"));
    assert_eq!(
        link,
        "<a href=\"https://github.com/owner/repo/blob/abcdef1/pkg/a%60b%7Cc%0A.py\"><code>pkg/a&#x60;b&#x7C;c&#x5C;n.py</code></a>"
    );
    assert_eq!(
        file_link("../secret.py", Some("https://github.com/owner/repo/blob/abcdef1")),
        "<code>../secret.py</code>"
    );
}

#[test]
fn rejects_unsafe_source_urls_and_snapshot_metadata() {
    assert!(validate_https_url("javascript:alert(1)", "source URL").is_err());
    assert!(validate_https_url("https://user@example.com/repo", "source URL").is_err());
    assert!(validate_https_url("https://example.com/repo#fragment", "source URL").is_err());

    let mut invalid = snapshot();
    invalid.repo = "owner/repo/extra".into();
    invalid.commit_sha = "`\n<h1>🦡abcdef".into();
    assert_eq!(default_source_url(&invalid), None);
    assert_eq!(short_sha(&invalid.commit_sha), "`\n<h1>🦡");

    let markdown = render(
        &invalid,
        &Comparison {
            base_available: false,
            files: vec![],
        },
        None,
        None,
    );
    assert!(markdown.contains("**Head:** <code>&#x60;&#x5C;n&#x3C;h1&#x3E;🦡</code>"));
    assert!(!markdown.contains("\n<h1>"));
}

#[test]
fn prevents_markdown_emphasis_inside_html_code() {
    assert_eq!(
        code_path("pkg/__init__.py"),
        "<code>pkg/&#x5F;&#x5F;init&#x5F;&#x5F;.py</code>"
    );
}

#[test]
fn full_report_of_a_small_comparison() {
    let comparison = Comparison {
        base_available: true,
        files: vec![
            delta("README.md", Some((1, 1)), Some((1, 1)), (0, 0, vec![])),
            delta("src/a.rs", Some((1, 2)), Some((2, 2)), (1, 1, vec![])),
            delta("src/b.rs", Some((2, 2)), None, (0, 0, vec![])),
        ],
    };
    let markdown = render(&snapshot(), &comparison, None, Some("http://example.com"));
    assert_eq!(
        markdown,
        "# 🦡 Badgers Coverage Report\n\n\
**Head:** <code>abcdef1</code>\n\n\
| Scope | Coverage | Δ |\n\
|---|---:|---:|\n\
| **Total** | 100.00% (3/3) | 🟢 +20.00%p |\n\
| **Changed lines** | 100.00% (1/1) | — |\n\n\
## Changed executable lines\n\n\
<details>\n<summary><code>src/a.rs</code> — 100.00% (1/1)</summary>\n\n\
✅ All changed executable lines are covered.\n\n\
</details>\n\n\
## Coverage by path\n\n\
| File | Lines | Covered | Coverage | Δ | Diff coverage |\n\
|---|---:|---:|---:|---:|---:|\n\
| <code>README.md</code> | 1 | 1 | 100.00% | ➖ ±0.00%p | n/a |\n\n\
<details open>\n<summary>📁 <strong>src/</strong> — 100.00% (2/2) · Δ 🟢 +25.00%p · Diff 100.00% (1/1)</summary>\n\n\
| File | Lines | Covered | Coverage | Δ | Diff coverage |\n\
|---|---:|---:|---:|---:|---:|\n\
| <code>src/a.rs</code> | 2 | 2 | 100.00% | 🟢 +50.00%p | 100.00% (1/1) |\n\
| <code>src/b.rs</code> | — | — | removed | n/a | n/a |\n\n\
</details>\n\n"
    );
}

#[test]
fn text_helpers_escape_for_markdown_and_html() {
    assert_eq!(visible_path("a\tb\u{1}"), "a\\tb\\u{1}");
    assert_eq!(markdown_html_text("a_b*c é"), "a&#x5F;b&#x2A;c é");
    assert_eq!(html_attr_escape("a&b<c>\"d'"), "a&amp;b&lt;c&gt;&quot;d&#39;");
    assert_eq!(html_link("https://x/?a=1&b", "L_1"), "<a href=\"https://x/?a=1&amp;b\">L&#x5F;1</a>");
    assert_eq!(
        line_link("src/a.rs", 3, 3, Some("https://example.com/blob/sha/")),
        "<a href=\"https://example.com/blob/sha/src/a.rs#L3\">L3</a>"
    );
    assert_eq!(line_link("src/a.rs", 3, 4, None), "L3-L4");
}

#[test]
fn validators_follow_their_rules() {
    assert!(valid_repo_slug("owner/re.po-1_"));
    assert!(!valid_repo_slug("owner"));
    assert!(!valid_repo_slug("owner/"));
    assert!(!valid_repo_slug("o w/r"));
    assert!(valid_commit_sha("abcdef1"));
    assert!(!valid_commit_sha("abcdef"));
    assert!(!valid_commit_sha("abcdefg"));
    assert!(valid_relative_source_path("a/b.py"));
    assert!(!valid_relative_source_path("/a"));
    assert!(!valid_relative_source_path("a//b"));
    assert!(!valid_relative_source_path("a/./b"));
    assert!(!valid_relative_source_path(""));
}
