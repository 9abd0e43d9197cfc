use badgers::baseline_fetch::validate_commit_sha;
use badgers::python::parse_coverage_version;
use badgers::setup_gcs::{
    already_exists_note, parse_repo_url, provider_state, provider_warning, repo_name, sanitize,
    truncate, Plan, ProviderState, SetupGcsArgs,
};
use badgers::cov::local_context;
use badgers::python::check_coverage_version;

#[test]
fn parses_standard_version_output() {
    let (major, minor, version) =
        parse_coverage_version("Coverage.py, version 7.6.1 with C extension").unwrap();
    assert_eq!((major, minor), (7, 6));
    assert_eq!(version, "7.6.1");
}

#[test]
fn parses_two_part_version() {
    let (major, minor, version) =
        parse_coverage_version("Coverage.py, version 6.3 without C extension").unwrap();
    assert_eq!((major, minor), (6, 3));
    assert_eq!(version, "6.3");
}

#[test]
fn rejects_output_without_version() {
    assert!(parse_coverage_version("no version here").is_none());
}

#[test]
fn version_words_are_trimmed_and_must_parse() {
    let (major, minor, version) = parse_coverage_version("v(7.6.1b2),").unwrap();
    assert_eq!((major, minor, version.as_str()), (7, 6, "7.6.1b2"));
    assert!(parse_coverage_version("1.2x.3").is_none());
    assert!(parse_coverage_version("release .5 then 3.4").is_some());
    assert_eq!(parse_coverage_version("release 5. then 3.4"), None);
}

#[test]
fn parses_common_remote_urls() {
    for url in [
        "git@github.com:owner/repo.git",
        "https://github.com/owner/repo.git",
        "https://github.com/owner/repo",
        "ssh://git@github.com/owner/repo.git",
    ] {
        assert_eq!(parse_repo_url(url).as_deref(), Some("owner/repo"), "{url}");
    }
    assert_eq!(parse_repo_url("not-a-url"), None);
}

#[test]
fn sanitizes_resource_names() {
    assert_eq!(sanitize("badgers-My_Repo.py", 30), "badgers-my-repo-py");
    assert_eq!(sanitize("badgers-timetree-planner-agent", 20), "badgers-timetree-pla");
    assert_eq!(sanitize("---x---", 30), "x");
}

#[test]
fn sanitized_names_do_not_end_in_a_dash_after_cutting() {
    assert_eq!(sanitize("ab-cd", 3), "ab");
    assert_eq!(truncate("owner/repo", 5), "owner");
    assert_eq!(truncate("owner", 60), "owner");
}

#[test]
fn plan_fills_defaults_from_project_and_repository() {
    let args = SetupGcsArgs {
        project: "proj".into(),
        repo: None,
        bucket: None,
        location: "asia-northeast3".into(),
        pool: "github-actions".into(),
        provider: None,
        service_account: None,
        repository_id: None,
        dry_run: true,
    };
    let name = repo_name("owner/My.Repo").unwrap();
    assert_eq!(name, "My.Repo");
    assert_eq!(repo_name("owner"), None);
    let plan = Plan::new(&args, "owner/My.Repo".into(), &name, "123".into(), "456".into());
    assert_eq!(plan.bucket, "proj-badgers-coverage");
    assert_eq!(plan.provider, "gh-my-repo");
    assert_eq!(plan.sa_name, "badgers-my-repo");
    assert_eq!(plan.sa_email, "badgers-my-repo@proj.iam.gserviceaccount.com");
    assert_eq!(
        plan.principal_set(),
        "principalSet://iam.googleapis.com/projects/123/locations/global/workloadIdentityPools/github-actions/attribute.repository_id/456"
    );
    assert_eq!(
        plan.provider_resource(),
        "projects/123/locations/global/workloadIdentityPools/github-actions/providers/gh-my-repo"
    );
    assert_eq!(plan.attribute_condition(), "assertion.repository_id == '456'");
}

#[test]
fn validates_pointer_commit_sha_before_reporting() {
    assert!(validate_commit_sha("0123456789abcdef0123456789abcdef01234567").is_ok());
    for invalid in [
        "abc1234",
        "0123456789abcdef0123456789abcdef0123456g",
        "0123456789abcdef0123456789abcdef012345\n",
    ] {
        assert!(validate_commit_sha(invalid).is_err(), "accepted {invalid:?}");
    }
}

#[test]
fn plan_header_and_workflow_snippet() {
    let args = SetupGcsArgs {
        project: "proj".into(),
        repo: None,
        bucket: None,
        location: "asia-northeast3".into(),
        pool: "github-actions".into(),
        provider: None,
        service_account: None,
        repository_id: None,
        dry_run: false,
    };
    let plan = Plan::new(&args, "owner/repo".into(), "repo", "123".into(), "456".into());
    assert_eq!(
        plan.header_text(),
        "project:        proj (123)\n\
         repository:     owner/repo (id 456)\n\
         bucket:         gs://proj-badgers-coverage (asia-northeast3)\n\
         pool/provider:  github-actions/gh-repo\n\
         service acct:   badgers-repo@proj.iam.gserviceaccount.com\n\n"
    );
    let snippet = plan.workflow_snippet();
    assert!(snippet.starts_with("\nSetup complete. Add this to your workflow before the badgers step:\n\n    permissions:\n"));
    assert!(snippet.contains(
        "          workload_identity_provider: projects/123/locations/global/workloadIdentityPools/github-actions/providers/gh-repo\n"
    ));
    assert!(snippet.contains("          service_account: badgers-repo@proj.iam.gserviceaccount.com\n"));
    assert!(snippet.ends_with("      - uses: devgony/badgers@main\n        with:\n          gcs-bucket: proj-badgers-coverage\n"));
}

#[test]
fn local_check_heading() {
    assert_eq!(
        local_context("feature/x", "0123456789abcdef0123456789abcdef01234567", false),
        "Local: feature/x @ 0123456"
    );
    assert_eq!(local_context("main", "abc", true), "Local: main @ abc (dirty)");
}

#[test]
fn coverage_py_must_be_at_least_6_3() {
    assert!(check_coverage_version(6, 3, "6.3").is_ok());
    assert!(check_coverage_version(7, 0, "7.0.1").is_ok());
    assert_eq!(
        check_coverage_version(6, 2, "6.2.1").unwrap_err(),
        "coverage.py >= 6.3 is required for `coverage lcov` (found 6.2.1)"
    );
    assert!(check_coverage_version(5, 9, "5.9").is_err());
}

#[test]
fn provider_state_compares_trimmed_conditions() {
    let expected = "assertion.repository_id == '42'";
    assert_eq!(provider_state(None, expected), ProviderState::Missing);
    assert_eq!(
        provider_state(Some("  assertion.repository_id == '42'\n"), expected),
        ProviderState::Matches
    );
    assert_eq!(
        provider_state(Some("assertion.repository_id == '7'\n"), expected),
        ProviderState::Differs
    );
    assert_eq!(provider_state(Some(""), expected), ProviderState::Differs);
}

#[test]
fn provisioning_notes_and_warning_text() {
    assert_eq!(
        already_exists_note("bucket", "gs://b"),
        "bucket already exists: gs://b"
    );
    assert_eq!(
        provider_warning("gh", " old\n", "new"),
        "::warning::provider gh exists with a different attribute condition\n  existing: old\n  expected: new\n  (fix manually or pass --provider to create a new one)"
    );
}
