//! The local coverage check: its exit status.
use vstd::prelude::*;

use crate::compare::Comparison;
use crate::render::{distinct_uncovered, uncovered_count};
use crate::text::{byte_boundary, byte_prefix, push_str};

verus! {

/// `1` when uncovered changed lines remain and failing is not switched off,
/// `0` otherwise.
pub fn comparison_exit_code(comparison: &Comparison, no_fail: bool) -> (r: u8)
    requires
        distinct_uncovered(comparison.files@) <= usize::MAX,
    ensures
        r == (if !no_fail && distinct_uncovered(comparison.files@) > 0 {
            1u8
        } else {
            0u8
        }),
{
    if !no_fail && uncovered_count(comparison) > 0 {
        1
    } else {
        0
    }
}

/// The heading of a local check: the branch, the commit's first seven
/// bytes, and whether the working tree has changes.
pub fn local_context(branch: &str, sha: &str, dirty: bool) -> (r: String)
    requires
        byte_boundary(sha@, 7),
    ensures
        r@ == "Local: "@ + branch@ + " @ "@ + byte_prefix(sha@, 7) + if dirty {
            " (dirty)"@
        } else {
            seq![]
        },
{
    let mut out: Vec<char> = Vec::new();
    push_str(&mut out, "Local: ");
    push_str(&mut out, branch);
    push_str(&mut out, " @ ");
    let short = crate::text::utf8_prefix(sha, 7);
    push_str(&mut out, short.as_str());
    let ghost before = out@;
    if dirty {
        push_str(&mut out, " (dirty)");
    } else {
        assert(out@ =~= before + seq![]);
    }
    crate::text::string_of(&out)
}

} // verus!
