//! The summary of a pull request's stored coverage comparison.
use vstd::prelude::*;

use crate::compare::{COMPARISON_SCHEMA_VERSION, ComparisonDocument};
use crate::github_storage::{GithubReportLocation, valid_sha};
use crate::text::ascii_lower;
use crate::render::{RenderOptions, summary_fits, summary_text};
use crate::text::{byte_boundary, byte_prefix, dec, push_dec, push_str};

verus! {

/// `PR: #547 @ 0123456`: the pull request and the first seven bytes of its
/// head commit.
pub open spec fn pr_context(pr: u64, head_sha: Seq<char>) -> Seq<char> {
    "PR: #"@ + dec(pr as nat) + " @ "@ + byte_prefix(head_sha, 7)
}

/// The summary of the changed lines of a pull request.
pub fn render(pr: u64, document: &ComparisonDocument) -> (r: String)
    requires
        byte_boundary(document.head_sha@, 7),
        summary_fits(document.comparison),
    ensures
        r@ == summary_text(
            pr_context(pr, document.head_sha@),
            document.comparison,
            None,
            RenderOptions::diff_spec(),
        ),
{
    let short = crate::text::utf8_prefix(document.head_sha.as_str(), 7);
    let mut context: Vec<char> = Vec::new();
    push_str(&mut context, "PR: #");
    push_dec(&mut context, pr);
    push_str(&mut context, " @ ");
    push_str(&mut context, short.as_str());
    assert(context@ =~= pr_context(pr, document.head_sha@));
    let context = crate::text::string_of(&context);
    crate::render::render_comparison(context.as_str(), &document.comparison)
}

/// Checks the comparison key of a pull request's pointer: it must be there,
/// and be the comparison path of the pointer's commit.
pub fn check_comparison_key(location: &GithubReportLocation, head_sha: &str, key: Option<&str>) -> (r:
    Result<(), String>)
    ensures
        match key {
            None => r matches Err(m) && m@
                == "the latest PR report does not contain a coverage comparison; enable GitHub repository storage and rerun coverage"@,
            Some(k) => if !valid_sha(head_sha@) {
                r matches Err(m) && m@ == "commit SHA must be exactly 40 ASCII hexadecimal characters"@
            } else if k@ != location.keys_root() + "/commits/"@ + head_sha@ + "/comparison.json.zst"@ {
                r matches Err(m) && m@ == "PR pointer comparison path does not match commit "@
                    + head_sha@
            } else {
                r is Ok
            },
        },
{
    let k = match key {
        None => {
            return Err(
                crate::text::string_of(
                    &crate::text::chars_of(
                        "the latest PR report does not contain a coverage comparison; enable GitHub repository storage and rerun coverage",
                    ),
                ),
            );
        },
        Some(k) => k,
    };
    let expected = match location.comparison_path(head_sha) {
        Ok(p) => p,
        Err(m) => return Err(m),
    };
    let kc = crate::text::chars_of(k);
    if !crate::text::eq_str(&kc, expected.as_str()) {
        let mut m: Vec<char> = Vec::new();
        push_str(&mut m, "PR pointer comparison path does not match commit ");
        push_str(&mut m, head_sha);
        return Err(crate::text::string_of(&m));
    }
    Ok(())
}

/// The error for a stored comparison expected for head commit `head_sha`,
/// if any: its schema, then its head commit up to ASCII case.
pub open spec fn stored_comparison_error(d: ComparisonDocument, head_sha: Seq<char>) -> Option<
    Seq<char>,
> {
    if d.schema_version != COMPARISON_SCHEMA_VERSION {
        Some("unsupported comparison schema version "@ + dec(d.schema_version as nat))
    } else if ascii_lower(d.head_sha@) != ascii_lower(head_sha) {
        Some(
            "stored comparison head SHA "@ + d.head_sha@ + " does not match PR head "@ + head_sha,
        )
    } else {
        None
    }
}

/// Checks a comparison read from storage before it is shown.
pub fn check_stored_comparison(document: &ComparisonDocument, head_sha: &str) -> (r: Result<(), String>)
    ensures
        match stored_comparison_error(*document, head_sha@) {
            Some(m) => r matches Err(e) && e@ == m,
            None => r is Ok,
        },
{
    let mut m: Vec<char> = Vec::new();
    if document.schema_version != COMPARISON_SCHEMA_VERSION {
        push_str(&mut m, "unsupported comparison schema version ");
        push_dec(&mut m, document.schema_version as u64);
        return Err(crate::text::string_of(&m));
    }
    if !crate::report_github::same_commit_sha(document.head_sha.as_str(), head_sha) {
        push_str(&mut m, "stored comparison head SHA ");
        push_str(&mut m, document.head_sha.as_str());
        push_str(&mut m, " does not match PR head ");
        push_str(&mut m, head_sha);
        return Err(crate::text::string_of(&m));
    }
    Ok(())
}

/// The largest decompressed comparison that is read: 64 MiB.
pub const MAX_COMPARISON_BYTES: usize = 67108864;

} // verus!
