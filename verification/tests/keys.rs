use badgers::storage::{Keys, encode_branch};

#[test]
fn encode_branch_escapes_slash_reversibly() {
    assert_eq!(encode_branch("main"), "main");
    assert_eq!(encode_branch("release/1.2"), "release%2F1.2");
    assert_eq!(encode_branch("feat_x-y.z"), "feat_x-y.z");
    assert_eq!(encode_branch("한글"), "%ED%95%9C%EA%B8%80");
}

#[test]
fn keys_layout() {
    let keys = Keys::new("badgers", "owner/repo");
    assert_eq!(
        keys.commit_snapshot("abc123"),
        "badgers/repos/owner/repo/commits/abc123/coverage.json.zst"
    );
    assert_eq!(
        keys.branch_pointer("release/1.2"),
        "badgers/repos/owner/repo/refs/release%2F1.2/latest.json"
    );
    assert_eq!(
        keys.pr_pointer(547),
        "badgers/repos/owner/repo/prs/547/latest.json"
    );
    assert_eq!(
        keys.pr_report_dir(547),
        "badgers/repos/owner/repo/prs/547/report"
    );
}

#[test]
fn keys_empty_prefix() {
    let keys = Keys::new("", "owner/repo");
    assert_eq!(
        keys.commit_snapshot("abc"),
        "repos/owner/repo/commits/abc/coverage.json.zst"
    );
}

#[test]
fn keys_trim_slashes_of_prefix_and_repo() {
    let keys = Keys::new("//cov/", "/owner/repo/");
    assert_eq!(keys.pr_pointer(0), "cov/repos/owner/repo/prs/0/latest.json");
    let bare = Keys::new("///", "o/r");
    assert_eq!(bare.pr_report_dir(12), "repos/o/r/prs/12/report");
}

#[test]
fn encode_branch_escapes_spaces_and_percent() {
    assert_eq!(encode_branch("a b%c~"), "a%20b%25c%7E");
    assert_eq!(encode_branch(""), "");
}

#[test]
fn report_keys_layout() {
    let keys = Keys::new("badgers", "owner/repo");
    assert_eq!(
        keys.commit_report("abc123"),
        "badgers/repos/owner/repo/commits/abc123/README.md"
    );
    assert_eq!(
        keys.branch_report("release/1.2"),
        "badgers/repos/owner/repo/refs/release%2F1.2/README.md"
    );
    assert_eq!(keys.pr_report(547), "badgers/repos/owner/repo/prs/547/README.md");
}

#[test]
fn storage_errors_describe_themselves() {
    use_storage_error_describe();
}

fn use_storage_error_describe() {
    use_error(
        badgers::storage::StorageError::PreconditionFailed { key: "k".into() },
        "precondition failed (generation mismatch) for k",
    );
    use_error(
        badgers::storage::StorageError::Io { key: "k".into(), message: "denied".into() },
        "storage I/O error for k: denied",
    );
    use_error(
        badgers::storage::StorageError::Http { key: "k".into(), message: "reset".into() },
        "http error for k: reset",
    );
    use_error(
        badgers::storage::StorageError::UnexpectedStatus { key: "k".into(), status: 503, body: "busy".into() },
        "unexpected status 503 for k: busy",
    );
}

fn use_error(e: badgers::storage::StorageError, expected: &str) {
    assert_eq!(e.describe(), expected);
}

#[test]
fn distinct_commits_have_distinct_snapshot_keys() {
    let keys = Keys::new("badgers", "o/r");
    assert_ne!(keys.commit_snapshot("abc"), keys.commit_snapshot("abd"));
    assert_ne!(keys.commit_snapshot("ab"), keys.commit_snapshot("abc"));
}
