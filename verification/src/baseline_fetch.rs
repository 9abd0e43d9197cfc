//! Fetching the baseline snapshot: the checks made on what storage returns.
use vstd::prelude::*;

use crate::github_storage::valid_sha;
use crate::model::{CoverageSnapshot, SCHEMA_VERSION};
use crate::pointer::debug_text;
use crate::storage::{BranchPointer, Keys, POINTER_SCHEMA_VERSION};
use crate::text::{ascii_lower, dec, push_dec, push_str};

verus! {

/// A commit SHA must be forty hexadecimal digits.
pub fn validate_commit_sha(sha: &str) -> (r: Result<(), String>)
    ensures
        r is Ok <==> valid_sha(sha@),
        r matches Err(e) ==> e@ == "commit SHA must be exactly 40 ASCII hexadecimal characters"@,
{
    crate::github_storage::validate_sha(sha)
}

/// The error for a pointer read at `key` for branch `base_ref`, if any: its
/// schema, branch, commit and snapshot key are checked in that order.
pub open spec fn base_pointer_error(
    p: BranchPointer,
    key: Seq<char>,
    base_ref: Seq<char>,
    expected_snapshot_key: Seq<char>,
) -> Option<Seq<char>> {
    if p.schema_version != POINTER_SCHEMA_VERSION {
        Some("unsupported pointer schema version "@ + dec(p.schema_version as nat) + " in "@ + key)
    } else if p.branch@ != base_ref {
        Some(
            "pointer "@ + key + " belongs to branch "@ + debug_text(p.branch@) + ", not "@
                + debug_text(base_ref),
        )
    } else if !valid_sha(p.commit_sha@) {
        Some(
            "invalid commit SHA in "@ + key
                + ": commit SHA must be exactly 40 ASCII hexadecimal characters"@,
        )
    } else if p.snapshot_key@ != expected_snapshot_key {
        Some("pointer "@ + key + " snapshot path does not match commit "@ + p.commit_sha@)
    } else {
        None
    }
}

/// Checks the base branch's pointer before the snapshot it names is read:
/// the current schema, the branch asked for, a full commit SHA, and the
/// snapshot key of that commit.
pub fn check_base_pointer(pointer: &BranchPointer, key: &str, base_ref: &str, keys: &Keys) -> (r:
    Result<(), String>)
    ensures
        match base_pointer_error(
            *pointer,
            key@,
            base_ref@,
            keys.root() + "/commits/"@ + pointer.commit_sha@ + "/coverage.json.zst"@,
        ) {
            Some(m) => r matches Err(e) && e@ == m,
            None => r is Ok,
        },
{
    let mut m: Vec<char> = Vec::new();
    if pointer.schema_version != POINTER_SCHEMA_VERSION {
        push_str(&mut m, "unsupported pointer schema version ");
        push_dec(&mut m, pointer.schema_version as u64);
        push_str(&mut m, " in ");
        push_str(&mut m, key);
        return Err(crate::text::string_of(&m));
    }
    let branch = crate::text::chars_of(pointer.branch.as_str());
    if !crate::text::eq_str(&branch, base_ref) {
        push_str(&mut m, "pointer ");
        push_str(&mut m, key);
        push_str(&mut m, " belongs to branch ");
        let have = crate::pointer::debug_quoted(pointer.branch.as_str());
        push_str(&mut m, have.as_str());
        push_str(&mut m, ", not ");
        let want = crate::pointer::debug_quoted(base_ref);
        push_str(&mut m, want.as_str());
        return Err(crate::text::string_of(&m));
    }
    if validate_commit_sha(pointer.commit_sha.as_str()).is_err() {
        push_str(&mut m, "invalid commit SHA in ");
        push_str(&mut m, key);
        push_str(&mut m, ": commit SHA must be exactly 40 ASCII hexadecimal characters");
        return Err(crate::text::string_of(&m));
    }
    let expected = keys.commit_snapshot(pointer.commit_sha.as_str());
    let actual = crate::text::chars_of(pointer.snapshot_key.as_str());
    if !crate::text::eq_str(&actual, expected.as_str()) {
        push_str(&mut m, "pointer ");
        push_str(&mut m, key);
        push_str(&mut m, " snapshot path does not match commit ");
        push_str(&mut m, pointer.commit_sha.as_str());
        return Err(crate::text::string_of(&m));
    }
    Ok(())
}

/// The error for a stored snapshot expected to be of `repo` at `sha`, if
/// any; repository and commit compare up to ASCII case.
pub open spec fn stored_snapshot_error(s: CoverageSnapshot, repo: Seq<char>, sha: Seq<char>) -> Option<
    Seq<char>,
> {
    if s.schema_version != SCHEMA_VERSION {
        Some("unsupported coverage snapshot schema version "@ + dec(s.schema_version as nat))
    } else if ascii_lower(s.repo@) != ascii_lower(repo) {
        Some("stored coverage snapshot repository "@ + s.repo@ + " does not match "@ + repo)
    } else if ascii_lower(s.commit_sha@) != ascii_lower(sha) {
        Some("stored coverage snapshot commit "@ + s.commit_sha@ + " does not match "@ + sha)
    } else {
        None
    }
}

/// Checks a snapshot read from storage before it is used as the baseline:
/// the current schema, the expected repository, and the expected commit.
pub fn check_stored_snapshot(snapshot: &CoverageSnapshot, repo: &str, sha: &str) -> (r: Result<
    (),
    String,
>)
    ensures
        match stored_snapshot_error(*snapshot, repo@, sha@) {
            Some(m) => r matches Err(e) && e@ == m,
            None => r is Ok,
        },
{
    let mut m: Vec<char> = Vec::new();
    if snapshot.schema_version != SCHEMA_VERSION {
        push_str(&mut m, "unsupported coverage snapshot schema version ");
        push_dec(&mut m, snapshot.schema_version as u64);
        return Err(crate::text::string_of(&m));
    }
    if !crate::report_github::same_commit_sha(snapshot.repo.as_str(), repo) {
        push_str(&mut m, "stored coverage snapshot repository ");
        push_str(&mut m, snapshot.repo.as_str());
        push_str(&mut m, " does not match ");
        push_str(&mut m, repo);
        return Err(crate::text::string_of(&m));
    }
    if !crate::report_github::same_commit_sha(snapshot.commit_sha.as_str(), sha) {
        push_str(&mut m, "stored coverage snapshot commit ");
        push_str(&mut m, snapshot.commit_sha.as_str());
        push_str(&mut m, " does not match ");
        push_str(&mut m, sha);
        return Err(crate::text::string_of(&m));
    }
    Ok(())
}

/// The largest decompressed snapshot that is read: 64 MiB.
pub const MAX_SNAPSHOT_BYTES: usize = 67108864;

} // verus!
