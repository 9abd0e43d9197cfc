//! Advancing a branch pointer only to newer commits: the decisions of the
//! read-compare-write loop that updates a pointer in storage.
use vstd::prelude::*;

use crate::storage::StorageError;
use crate::text::{chars_of, push_str};

verus! {

/// The instant an RFC 3339 timestamp names, in nanoseconds since the Unix
/// epoch, as `jiff` parses it; `None` when it does not parse.
pub uninterp spec fn timestamp_nanos(s: Seq<char>) -> Option<i128>;

/// `jiff::Timestamp::from_str`, then `Timestamp::as_nanosecond`. Timestamps
/// order as their nanosecond counts do. The text of the parse error is not
/// stated here.
#[verifier::external_body]
fn parse_timestamp(s: &str) -> (r: Result<i128, String>)
    ensures
        match r {
            Ok(n) => timestamp_nanos(s@) == Some(n),
            Err(_) => timestamp_nanos(s@) is None,
        },
{
    s.parse::<jiff::Timestamp>().map(|ts| ts.as_nanosecond()).map_err(|e| e.to_string())
}

/// What `{:?}` writes for a string.
pub uninterp spec fn debug_text(s: Seq<char>) -> Seq<char>;

/// `format!("{:?}", s)`: the string quoted, with its special characters
/// escaped.
#[verifier::external_body]
pub(crate) fn debug_quoted(s: &str) -> (r: String)
    ensures
        r@ == debug_text(s@),
{
    format!("{s:?}")
}

/// The commit time of a pointer, in nanoseconds; an error naming the
/// pointer's key when it does not parse.
pub fn parse_ts(key: &str, value: &str) -> (r: Result<i128, StorageError>)
    ensures
        match timestamp_nanos(value@) {
            Some(n) => r == Ok::<i128, StorageError>(n),
            None => r matches Err(StorageError::Http { key: k, message: m }) && k@ == key@
                && m@.len() >= ("invalid committed_at "@ + debug_text(value@) + ": "@).len()
                && m@.take(("invalid committed_at "@ + debug_text(value@) + ": "@).len() as int)
                == "invalid committed_at "@ + debug_text(value@) + ": "@,
        },
{
    match parse_timestamp(value) {
        Ok(n) => Ok(n),
        Err(e) => {
            let mut message: Vec<char> = Vec::new();
            push_str(&mut message, "invalid committed_at ");
            let quoted = debug_quoted(value);
            push_str(&mut message, quoted.as_str());
            push_str(&mut message, ": ");
            let ghost prefix = message@;
            push_str(&mut message, e.as_str());
            assert(message@.take(prefix.len() as int) =~= prefix);
            Err(
                StorageError::Http {
                    key: crate::text::string_of(&chars_of(key)),
                    message: crate::text::string_of(&message),
                },
            )
        },
    }
}

/// The next step of a pointer update.
#[derive(Debug, Clone, Copy, PartialEq, Eq, Structural)]
pub enum PointerStep {
    /// The stored pointer already names a commit at least as new.
    Skip,
    /// Write the new pointer if the stored object still has this generation
    /// (`0`: if there is none).
    Put(i64),
}

/// The step for a stored pointer (its commit time when it can be read, and
/// its generation), or for none, against a new commit time.
pub open spec fn pointer_step_of(existing: Option<(Option<i128>, i64)>, new_committed: i128) -> PointerStep {
    match existing {
        None => PointerStep::Put(0),
        Some((Some(t), g)) => if t >= new_committed {
            PointerStep::Skip
        } else {
            PointerStep::Put(g)
        },
        Some((None, g)) => PointerStep::Put(g),
    }
}

/// Decides whether to write: skip when the stored pointer is at least as
/// new, otherwise write conditioned on the generation that was read.
pub fn pointer_step(existing: Option<(Option<i128>, i64)>, new_committed: i128) -> (r: PointerStep)
    ensures
        r == pointer_step_of(existing, new_committed),
{
    match existing {
        None => PointerStep::Put(0),
        Some((Some(t), g)) => if t >= new_committed {
            PointerStep::Skip
        } else {
            PointerStep::Put(g)
        },
        Some((None, g)) => PointerStep::Put(g),
    }
}

/// Attempts at a conditional write before a lost race is reported.
pub const MAX_ATTEMPTS: u32 = 3;

/// After a lost race on attempt `attempt` (from 0), whether to try again.
pub fn may_retry(attempt: u32) -> (r: bool)
    ensures
        r == (attempt + 1 < MAX_ATTEMPTS),
{
    attempt < MAX_ATTEMPTS - 1
}

/// The wait before retrying after attempt `attempt`: `200 * 2^attempt`
/// milliseconds plus a jitter.
pub fn backoff_ms(attempt: u32, jitter_ms: u64) -> (r: u64)
    requires
        attempt < MAX_ATTEMPTS,
        jitter_ms < 100,
    ensures
        r == 200 * vstd::arithmetic::power2::pow2(attempt as nat) + jitter_ms,
{
    proof {
        vstd::arithmetic::power2::lemma2_to64();
    }
    let factor: u64 = if attempt == 0 {
        1
    } else if attempt == 1 {
        2
    } else {
        4
    };
    200 * factor + jitter_ms
}

/// A pointer is never moved back: it is written only for a commit newer
/// than the one it names, or when what it names cannot be read.
pub proof fn law_pointer_never_rolls_back(stored: i128, generation: i64, new_committed: i128)
    ensures
        pointer_step_of(Some((Some(stored), generation)), new_committed) is Put ==> stored
            < new_committed,
        pointer_step_of(Some((Some(stored), generation)), new_committed) is Skip ==> new_committed
            <= stored,
{
}

} // verus!
