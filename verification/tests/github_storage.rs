use badgers::github_storage::{
    DEFAULT_STORAGE_BRANCH, DEFAULT_STORAGE_PREFIX, GithubReportLocation, SourceRepository,
    html_escape, normalize_prefix, parse_repo_url, shell_quote, validate_branch, validate_sha,
};
use badgers::github_storage::{pick_source_slug, source_repository};
use badgers::github_storage::check_report_filename;

const SHA: &str = "0123456789abcdef0123456789abcdef01234567";

#[test]
fn builds_pointer_report_path_and_view_command() {
    let location = GithubReportLocation::new(
        "owner/project",
        "reports/archive",
        "coverage/reports",
        "/badgers/history/",
    )
    .unwrap();
    assert_eq!(
        location.pr_pointer_path(547),
        "badgers/history/repos/owner/project/prs/547/latest.json"
    );
    assert_eq!(
        location.report_spec(SHA).unwrap(),
        "reports/archive@coverage/reports:badgers/history/repos/owner/project/commits/0123456789abcdef0123456789abcdef01234567/html/index.html"
    );
    assert_eq!(
        location.html_prefix(SHA).unwrap(),
        "badgers/history/repos/owner/project/commits/0123456789abcdef0123456789abcdef01234567/html"
    );
    assert_eq!(
        location.comparison_path(SHA).unwrap(),
        "badgers/history/repos/owner/project/commits/0123456789abcdef0123456789abcdef01234567/comparison.json.zst"
    );
    assert_eq!(
        location.view_command_with_binary(547, "badgers"),
        "badgers view 547 --repo owner/project --storage-repo reports/archive --storage-branch coverage/reports --storage-prefix badgers/history"
    );
    assert_eq!(
        location.installed_view_command(547),
        "~/.local/bin/badgers view 547 --repo owner/project --storage-repo reports/archive --storage-branch coverage/reports --storage-prefix badgers/history"
    );
}

#[test]
fn omits_default_storage_options_from_view_command() {
    let location = GithubReportLocation::new(
        "owner/project",
        "owner/project",
        DEFAULT_STORAGE_BRANCH,
        DEFAULT_STORAGE_PREFIX,
    )
    .unwrap();
    assert_eq!(
        location.view_command_with_binary(5, "badgers"),
        "badgers view 5 --repo owner/project --storage-repo owner/project"
    );
}

#[test]
fn rejects_unsafe_locations() {
    assert!(GithubReportLocation::new("owner/../repo", "o/r", "main", "badgers").is_err());
    assert!(GithubReportLocation::new("o/r", "o/r", "../main", "badgers").is_err());
    assert!(GithubReportLocation::new("o/r", "o/r", "main", "badgers/../x").is_err());
    assert!(validate_sha("abc123").is_err());
}

#[test]
fn parses_common_git_remote_urls() {
    for url in [
        "git@github.com:owner/repo.git",
        "https://github.com/owner/repo.git",
        "https://github.com/owner/repo",
        "ssh://git@github.com/owner/repo.git",
    ] {
        assert_eq!(parse_repo_url(url).as_deref(), Some("owner/repo"), "{url}");
    }
    assert_eq!(parse_repo_url("not-a-url"), None);
    assert_eq!(parse_repo_url("https://github.com/owner/../repo"), None);
}

#[test]
fn github_storage_recognizes_when_local_origin_can_clone_storage_directly() {
    let source = SourceRepository {
        slug: "owner/project".into(),
        origin_url: Some("git@github.com:owner/project.git".into()),
    };
    let location = GithubReportLocation::new(
        &source.slug,
        "owner/project",
        DEFAULT_STORAGE_BRANCH,
        DEFAULT_STORAGE_PREFIX,
    )
    .unwrap();
    assert_eq!(location.storage_repo, location.source_repo);
    assert_eq!(
        source.origin_url.as_deref(),
        Some("git@github.com:owner/project.git")
    );
}

#[test]
fn location_errors_name_the_first_failing_part() {
    assert_eq!(
        GithubReportLocation::new("bad", "also bad", "-x", "a//b").unwrap_err(),
        "source repository must be owner/repo"
    );
    assert_eq!(
        GithubReportLocation::new("o/r", "x", "main", "p").unwrap_err(),
        "storage repository must be owner/repo"
    );
    assert_eq!(
        GithubReportLocation::new("o/r", "o/r", "a.lock/b", "p").unwrap_err(),
        "storage branch is not a safe Git branch name"
    );
    assert_eq!(
        GithubReportLocation::new("o/r", "o/r", "main", "a\\b").unwrap_err(),
        "storage prefix is unsafe"
    );
}

#[test]
fn branch_and_prefix_rules() {
    for ok in ["main", "feature/x", "release-1.2", "a@b"] {
        assert!(validate_branch(ok).is_ok(), "{ok}");
    }
    for bad in ["", "-x", "/x", "x/", "x.", "a..b", "a//b", "a@{b", "a b", "a:b", "a~b", "x.lock", "a/b.lock/c"] {
        assert!(validate_branch(bad).is_err(), "{bad}");
    }
    assert_eq!(normalize_prefix("/a/b/").unwrap(), "a/b");
    assert_eq!(normalize_prefix("///").unwrap(), "");
    assert!(normalize_prefix("a/./b").is_err());
    assert!(normalize_prefix("a\u{7}").is_err());
}

#[test]
fn quoting_and_escaping() {
    assert_eq!(shell_quote("owner/repo"), "owner/repo");
    assert_eq!(shell_quote(""), "''");
    assert_eq!(shell_quote("it's here"), "'it'\\''s here'");
    assert_eq!(html_escape("<a href=\"x\">&</a>"), "&lt;a href=&quot;x&quot;&gt;&amp;&lt;/a&gt;");
    assert!(validate_sha(SHA).is_ok());
    assert!(validate_sha("0123456789ABCDEF0123456789abcdef0123456g").is_err());
}

#[test]
fn view_recognizes_when_local_origin_can_clone_storage_directly() {
    let source = SourceRepository {
        slug: "owner/project".into(),
        origin_url: Some("git@github.com:owner/project.git".into()),
    };
    let location = GithubReportLocation::new(
        &source.slug,
        "owner/project",
        DEFAULT_STORAGE_BRANCH,
        DEFAULT_STORAGE_PREFIX,
    )
    .unwrap();
    assert_eq!(location.storage_repo, location.source_repo);
    assert_eq!(source.origin_url.as_deref(), Some("git@github.com:owner/project.git"));
}

#[test]
fn report_cache_path_is_keyed_by_the_storage_location() {
    let location = GithubReportLocation::new(
        "owner/project",
        "reports/archive",
        "coverage/reports",
        "/badgers/history/",
    )
    .unwrap();
    let parts = badgers::fingerprint::report_cache_components(&location, 547, SHA);
    assert_eq!(parts, vec!["c126ebcb0546e0ff", "prs", "547", SHA, "html"]);
    let other = GithubReportLocation::new("owner/project", "reports/archive", "other", "badgers")
        .unwrap();
    let other_parts = badgers::fingerprint::report_cache_components(&other, 547, SHA);
    assert_ne!(parts[0], other_parts[0]);
    assert_eq!(other_parts[0].len(), 16);
}

#[test]
fn source_repository_priority_and_origin_matching() {
    let origin = Some("git@github.com:owner/project.git");
    assert_eq!(pick_source_slug(Some("a/b"), Some("c/d"), origin).as_deref(), Some("a/b"));
    assert_eq!(pick_source_slug(None, Some("c/d"), origin).as_deref(), Some("c/d"));
    assert_eq!(pick_source_slug(None, Some(""), origin).as_deref(), Some("owner/project"));
    assert_eq!(pick_source_slug(None, None, Some("not-a-url")), None);
    assert_eq!(pick_source_slug(None, None, None), None);

    let same = source_repository("owner/project", origin).unwrap();
    assert_eq!(same.origin_url.as_deref(), origin);
    let other = source_repository("owner/other", origin).unwrap();
    assert_eq!(other.origin_url, None);
    assert_eq!(
        source_repository("bad", origin).unwrap_err(),
        "source repository must be owner/repo"
    );
}

#[test]
fn storage_is_cloned_from_origin_only_when_it_is_the_source() {
    let same = GithubReportLocation::new("owner/project", "owner/project", "b", "p").unwrap();
    assert_eq!(same.clone_origin(Some("url")), Some("url"));
    let other = GithubReportLocation::new("owner/project", "owner/reports", "b", "p").unwrap();
    assert_eq!(other.clone_origin(Some("url")), None);
}

#[test]
fn stored_report_filenames_stay_in_their_directory() {
    assert!(check_report_filename("index.html").is_ok());
    assert!(check_report_filename("..x").is_ok());
    for bad in ["", ".", "..", "a/b", "a\\b"] {
        assert_eq!(
            check_report_filename(bad).unwrap_err(),
            "stored HTML report contains an unsafe filename"
        );
    }
}
