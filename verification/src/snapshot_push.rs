//! Pushing a commit's snapshot: the checks on what is uploaded and the
//! pointers that are moved to it.
use vstd::prelude::*;

use crate::compare::{COMPARISON_SCHEMA_VERSION, ComparisonDocument};
use crate::storage::{Keys, percent_encoded};
use crate::text::{chars_of, dec, push_dec, push_str};

verus! {

/// The snapshot must be of the commit being pushed.
pub fn check_snapshot_sha(snapshot_sha: &str, sha: &str) -> (r: Result<(), String>)
    ensures
        r is Ok <==> snapshot_sha@ == sha@,
        r matches Err(m) ==> m@ == "snapshot commit SHA "@ + snapshot_sha@ + " does not match --sha "@
            + sha@,
{
    let a = chars_of(snapshot_sha);
    if crate::text::eq_str(&a, sha) {
        Ok(())
    } else {
        let mut m: Vec<char> = Vec::new();
        push_str(&mut m, "snapshot commit SHA ");
        push_str(&mut m, snapshot_sha);
        push_str(&mut m, " does not match --sha ");
        push_str(&mut m, sha);
        Err(crate::text::string_of(&m))
    }
}

/// The comparison pushed with a snapshot must have the current schema and
/// be of the commit being pushed.
pub fn check_push_comparison(document: &ComparisonDocument, sha: &str) -> (r: Result<(), String>)
    ensures
        r is Ok <==> (document.schema_version == COMPARISON_SCHEMA_VERSION && document.head_sha@
            == sha@),
        document.schema_version != COMPARISON_SCHEMA_VERSION ==> (r matches Err(m) && m@
            == "unsupported comparison schema version "@ + dec(document.schema_version as nat)),
        document.schema_version == COMPARISON_SCHEMA_VERSION && document.head_sha@ != sha@ ==> (r matches Err(
            m,
        ) && m@ == "comparison head SHA "@ + document.head_sha@ + " does not match --sha "@ + sha@),
{
    let mut m: Vec<char> = Vec::new();
    if document.schema_version != COMPARISON_SCHEMA_VERSION {
        push_str(&mut m, "unsupported comparison schema version ");
        push_dec(&mut m, document.schema_version as u64);
        return Err(crate::text::string_of(&m));
    }
    let h = chars_of(document.head_sha.as_str());
    if !crate::text::eq_str(&h, sha) {
        push_str(&mut m, "comparison head SHA ");
        push_str(&mut m, document.head_sha.as_str());
        push_str(&mut m, " does not match --sha ");
        push_str(&mut m, sha);
        return Err(crate::text::string_of(&m));
    }
    Ok(())
}

/// A pointer moved by a push: its key, the key of its Markdown report, and
/// the branch label it records.
pub struct PointerTarget {
    pub pointer_key: String,
    pub report_key: String,
    pub label: String,
}

/// The pointers a push moves: the branch's, then the pull request's
/// (labelled `pr-{n}`), each for what was given.
pub fn pointer_targets(keys: &Keys, branch: Option<&str>, pr: Option<u64>) -> (r: Vec<PointerTarget>)
    ensures
        r@.len() == (if branch is Some { 1int } else { 0 }) + (if pr is Some { 1int } else { 0 }),
        branch matches Some(b) ==> r@[0].pointer_key@ == keys.root() + "/refs/"@ + percent_encoded(
            vstd::utf8::encode_utf8(b@),
        ) + "/latest.json"@ && r@[0].report_key@ == keys.root() + "/refs/"@ + percent_encoded(
            vstd::utf8::encode_utf8(b@),
        ) + "/README.md"@ && r@[0].label@ == b@,
        pr matches Some(n) ==> {
            let t = r@[r@.len() - 1];
            &&& t.pointer_key@ == keys.root() + "/prs/"@ + dec(n as nat) + "/latest.json"@
            &&& t.report_key@ == keys.root() + "/prs/"@ + dec(n as nat) + "/README.md"@
            &&& t.label@ == "pr-"@ + dec(n as nat)
        },
{
    let mut out: Vec<PointerTarget> = Vec::new();
    if let Some(b) = branch {
        out.push(
            PointerTarget {
                pointer_key: keys.branch_pointer(b),
                report_key: keys.branch_report(b),
                label: crate::text::string_of(&chars_of(b)),
            },
        );
    }
    if let Some(n) = pr {
        let mut label: Vec<char> = Vec::new();
        push_str(&mut label, "pr-");
        push_dec(&mut label, n);
        out.push(
            PointerTarget {
                pointer_key: keys.pr_pointer(n),
                report_key: keys.pr_report(n),
                label: crate::text::string_of(&label),
            },
        );
    }
    out
}

/// The zstd level snapshots and comparisons are compressed with.
pub const ZSTD_LEVEL: i32 = 3;

} // verus!
