use badgers::baseline_fetch::{check_base_pointer, check_stored_snapshot};
use badgers::compare::{Comparison, ComparisonDocument, COMPARISON_SCHEMA_VERSION};
use badgers::github_storage::GithubReportLocation;
use badgers::model::{CoverageSnapshot, ToolVersions};
use badgers::pr_diff::{check_comparison_key, check_stored_comparison};
use badgers::snapshot_push::{check_push_comparison, check_snapshot_sha, pointer_targets};
use badgers::storage::{BranchPointer, Keys, POINTER_SCHEMA_VERSION};

const SHA: &str = "0123456789abcdef0123456789abcdef01234567";

fn pointer(branch: &str, sha: &str, snapshot_key: String) -> BranchPointer {
    BranchPointer {
        schema_version: POINTER_SCHEMA_VERSION,
        branch: branch.into(),
        commit_sha: sha.into(),
        committed_at: "2026-07-19T00:00:00Z".into(),
        snapshot_key,
        comparison_key: None,
        report_key: None,
        updated_at: "2026-07-19T00:00:00Z".into(),
    }
}

fn document(schema_version: u32, head_sha: &str) -> ComparisonDocument {
    ComparisonDocument {
        schema_version,
        head_sha: head_sha.into(),
        base_sha: None,
        comparison: Comparison { base_available: false, files: vec![] },
    }
}

#[test]
fn base_pointer_checks() {
    let keys = Keys::new("badgers", "o/r");
    let key = keys.branch_pointer("main");
    let good = pointer("main", SHA, keys.commit_snapshot(SHA));
    assert!(check_base_pointer(&good, &key, "main", &keys).is_ok());

    let mut old = good.clone();
    old.schema_version = 9;
    assert_eq!(
        check_base_pointer(&old, &key, "main", &keys).unwrap_err(),
        format!("unsupported pointer schema version 9 in {key}")
    );
    assert_eq!(
        check_base_pointer(&good, &key, "dev", &keys).unwrap_err(),
        format!("pointer {key} belongs to branch \"main\", not \"dev\"")
    );
    let bad_sha = pointer("main", "abc", keys.commit_snapshot("abc"));
    assert_eq!(
        check_base_pointer(&bad_sha, &key, "main", &keys).unwrap_err(),
        format!("invalid commit SHA in {key}: commit SHA must be exactly 40 ASCII hexadecimal characters")
    );
    let moved = pointer("main", SHA, "elsewhere".into());
    assert_eq!(
        check_base_pointer(&moved, &key, "main", &keys).unwrap_err(),
        format!("pointer {key} snapshot path does not match commit {SHA}")
    );
}

#[test]
fn stored_snapshot_checks() {
    let snapshot = CoverageSnapshot::new(
        "Owner/Repo".into(),
        SHA.to_uppercase(),
        None,
        None,
        "2026-07-19T00:00:00Z".into(),
        ToolVersions { badgers: "1".into(), cargo_llvm_cov: None, coverage_py: None },
        vec![],
    );
    assert!(check_stored_snapshot(&snapshot, "owner/repo", SHA).is_ok());
    assert_eq!(
        check_stored_snapshot(&snapshot, "owner/other", SHA).unwrap_err(),
        "stored coverage snapshot repository Owner/Repo does not match owner/other"
    );
    assert_eq!(
        check_stored_snapshot(&snapshot, "owner/repo", "abc").unwrap_err(),
        format!("stored coverage snapshot commit {} does not match abc", SHA.to_uppercase())
    );
    let mut future = snapshot.clone();
    future.schema_version = 2;
    assert_eq!(
        check_stored_snapshot(&future, "owner/repo", SHA).unwrap_err(),
        "unsupported coverage snapshot schema version 2"
    );
}

#[test]
fn pr_comparison_checks() {
    let location = GithubReportLocation::new("owner/project", "owner/project", "b", "badgers").unwrap();
    let key = location.comparison_path(SHA).unwrap();
    assert!(check_comparison_key(&location, SHA, Some(&key)).is_ok());
    assert_eq!(
        check_comparison_key(&location, SHA, None).unwrap_err(),
        "the latest PR report does not contain a coverage comparison; enable GitHub repository storage and rerun coverage"
    );
    assert_eq!(
        check_comparison_key(&location, SHA, Some("x")).unwrap_err(),
        format!("PR pointer comparison path does not match commit {SHA}")
    );
    assert!(check_stored_comparison(&document(COMPARISON_SCHEMA_VERSION, &SHA.to_uppercase()), SHA).is_ok());
    assert_eq!(
        check_stored_comparison(&document(1, SHA), SHA).unwrap_err(),
        "unsupported comparison schema version 1"
    );
    assert_eq!(
        check_stored_comparison(&document(COMPARISON_SCHEMA_VERSION, "abc"), SHA).unwrap_err(),
        format!("stored comparison head SHA abc does not match PR head {SHA}")
    );
    let html = location.html_prefix(SHA).unwrap();
    assert!(location.check_html_prefix(SHA, Some(&html)).is_ok());
    assert_eq!(
        location.check_html_prefix(SHA, None).unwrap_err(),
        "the latest PR report does not contain an HTML bundle"
    );
    assert_eq!(
        location.check_html_prefix(SHA, Some("elsewhere")).unwrap_err(),
        format!("PR pointer HTML path does not match commit {SHA}")
    );
}

#[test]
fn push_checks_and_pointer_targets() {
    assert!(check_snapshot_sha(SHA, SHA).is_ok());
    assert_eq!(
        check_snapshot_sha("a", "b").unwrap_err(),
        "snapshot commit SHA a does not match --sha b"
    );
    assert!(check_push_comparison(&document(COMPARISON_SCHEMA_VERSION, SHA), SHA).is_ok());
    assert_eq!(
        check_push_comparison(&document(COMPARISON_SCHEMA_VERSION, "x"), SHA).unwrap_err(),
        format!("comparison head SHA x does not match --sha {SHA}")
    );
    assert_eq!(
        check_push_comparison(&document(7, SHA), SHA).unwrap_err(),
        "unsupported comparison schema version 7"
    );
    let keys = Keys::new("badgers", "o/r");
    let targets = pointer_targets(&keys, Some("release/1"), Some(5));
    assert_eq!(targets.len(), 2);
    assert_eq!(targets[0].pointer_key, "badgers/repos/o/r/refs/release%2F1/latest.json");
    assert_eq!(targets[0].report_key, "badgers/repos/o/r/refs/release%2F1/README.md");
    assert_eq!(targets[0].label, "release/1");
    assert_eq!(targets[1].pointer_key, "badgers/repos/o/r/prs/5/latest.json");
    assert_eq!(targets[1].report_key, "badgers/repos/o/r/prs/5/README.md");
    assert_eq!(targets[1].label, "pr-5");
    assert!(pointer_targets(&keys, None, None).is_empty());
}
