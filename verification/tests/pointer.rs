use badgers::github_storage::{check_key_component, check_pr_pointer, key_components};
use badgers::pointer::{MAX_ATTEMPTS, PointerStep, backoff_ms, may_retry, parse_ts, pointer_step};
use badgers::storage::{BranchPointer, StorageError};

const SHA: &str = "0123456789abcdef0123456789abcdef01234567";

fn pr_pointer(branch: &str, sha: &str, schema_version: u32) -> BranchPointer {
    BranchPointer {
        schema_version,
        branch: branch.to_string(),
        commit_sha: sha.to_string(),
        committed_at: "2026-07-19T00:00:00Z".to_string(),
        snapshot_key: "snap".to_string(),
        comparison_key: None,
        report_key: None,
        updated_at: "2026-07-19T00:00:00Z".to_string(),
    }
}

#[test]
fn timestamps_with_offsets_compare_as_instants() {
    let tokyo = parse_ts("k", "2026-07-19T12:00:00+09:00").unwrap();
    let utc = parse_ts("k", "2026-07-19T00:00:00Z").unwrap();
    assert!(tokyo > utc);
    assert_eq!(tokyo - utc, 3 * 3600 * 1_000_000_000);
    assert_eq!(parse_ts("k", "1970-01-01T00:00:01Z").unwrap(), 1_000_000_000);
}

#[test]
fn unparsable_timestamp_names_the_key() {
    match parse_ts("refs/main/latest.json", "yesterday") {
        Err(StorageError::Http { key, message }) => {
            assert_eq!(key, "refs/main/latest.json");
            assert!(message.starts_with("invalid committed_at \"yesterday\": "));
        }
        other => panic!("unexpected {other:?}"),
    }
}

#[test]
fn pointer_steps() {
    assert_eq!(pointer_step(None, 5), PointerStep::Put(0));
    assert_eq!(pointer_step(Some((Some(10), 7)), 5), PointerStep::Skip);
    assert_eq!(pointer_step(Some((Some(5), 7)), 5), PointerStep::Skip);
    assert_eq!(pointer_step(Some((Some(4), 7)), 5), PointerStep::Put(7));
    assert_eq!(pointer_step(Some((None, 9)), 5), PointerStep::Put(9));
}

#[test]
fn retries_and_backoff() {
    assert_eq!(MAX_ATTEMPTS, 3);
    assert!(may_retry(0));
    assert!(may_retry(1));
    assert!(!may_retry(2));
    assert_eq!(backoff_ms(0, 0), 200);
    assert_eq!(backoff_ms(1, 5), 405);
    assert_eq!(backoff_ms(2, 99), 899);
}

#[test]
fn pr_pointer_checks() {
    assert!(check_pr_pointer(&pr_pointer("pr-12", SHA, 1), 12).is_ok());
    assert_eq!(
        check_pr_pointer(&pr_pointer("pr-12", SHA, 2), 12).unwrap_err(),
        "unsupported PR pointer schema version 2"
    );
    assert_eq!(
        check_pr_pointer(&pr_pointer("pr-13", SHA, 1), 12).unwrap_err(),
        "pointer belongs to pr-13, not PR #12"
    );
    assert_eq!(
        check_pr_pointer(&pr_pointer("pr-12", "abc", 1), 12).unwrap_err(),
        "commit SHA must be exactly 40 ASCII hexadecimal characters"
    );
}

#[test]
fn stored_key_components() {
    assert_eq!(key_components("a/b/c.html").unwrap(), vec!["a", "b", "c.html"]);
    assert_eq!(key_components("a//b").unwrap(), vec!["a", "", "b"]);
    assert_eq!(key_components("").unwrap_err(), "stored report path is empty");
    assert!(check_key_component("a/b", "b").is_ok());
    for bad in ["", ".", "..", "a\\b"] {
        assert_eq!(
            check_key_component("k/x", bad).unwrap_err(),
            "stored report contains an unsafe path: k/x"
        );
    }
    assert!(check_key_component("k", "...").is_ok());
}
