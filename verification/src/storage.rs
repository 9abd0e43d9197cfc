//! The storage layout for coverage snapshots and the records kept in it.
use vstd::prelude::*;

use crate::github_storage::is_dot_part;
use crate::text::{chars_of, dec, push_chars, push_dec, push_str, split};

verus! {

/// Bytes kept verbatim by branch encoding: `[A-Za-z0-9._-]`.
pub open spec fn unreserved(b: u8) -> bool {
    (65 <= b <= 90) || (97 <= b <= 122) || (48 <= b <= 57) || b == 46 || b == 95 || b == 45
}

/// An upper-case hexadecimal digit.
pub open spec fn hex_digit(n: u8) -> char {
    if n < 10 {
        (48 + n) as char
    } else {
        (55 + n) as char
    }
}

/// Percent-encoding of `bytes`: unreserved bytes as themselves, every other
/// byte as `%` and two upper-case hexadecimal digits.
pub open spec fn percent_encoded(bytes: Seq<u8>) -> Seq<char>
    decreases bytes.len(),
{
    if bytes.len() == 0 {
        seq![]
    } else {
        let b = bytes.last();
        percent_encoded(bytes.drop_last()) + if unreserved(b) {
            seq![b as char]
        } else {
            seq!['%', hex_digit(b / 16), hex_digit(b % 16)]
        }
    }
}

fn hex_char(n: u8) -> (c: char)
    requires
        n < 16,
    ensures
        c == hex_digit(n),
{
    if n < 10 {
        (48u8 + n) as char
    } else {
        (55u8 + n) as char
    }
}

/// Everything except `[A-Za-z0-9._-]` is escaped (as UTF-8 bytes), so
/// encoding is reversible and collision-free (unlike `__` substitution,
/// where `a/b` and `a__b` clash).
pub fn encode_branch(branch: &str) -> (r: String)
    ensures
        r@ == percent_encoded(vstd::utf8::encode_utf8(branch@)),
        crate::laws::percent_decoded(r@) == vstd::utf8::encode_utf8(branch@),
{
    proof {
        crate::laws::law_percent_decoding(vstd::utf8::encode_utf8(branch@));
    }
    let bytes = branch.as_bytes();
    let ghost bs = bytes@;
    assert(bs == vstd::utf8::encode_utf8(branch@));
    let mut out: Vec<char> = Vec::new();
    let mut i: usize = 0;
    while i < bytes.len()
        invariant
            i <= bs.len(),
            bs == bytes@,
            out@ == percent_encoded(bs.take(i as int)),
        decreases bs.len() - i,
    {
        let b = bytes[i];
        assert(bs.take(i + 1).drop_last() =~= bs.take(i as int));
        assert(bs.take(i + 1).last() == b);
        let keep = (65 <= b && b <= 90) || (97 <= b && b <= 122) || (48 <= b && b <= 57) || b == 46
            || b == 95 || b == 45;
        if keep {
            out.push(b as char);
        } else {
            out.push('%');
            out.push(hex_char(b / 16));
            out.push(hex_char(b % 16));
        }
        i += 1;
        assert(out@ =~= percent_encoded(bs.take(i as int)));
    }
    assert(bs.take(i as int) =~= bs);
    crate::text::string_of(&out)
}

/// `s` without leading and trailing `/`.
pub open spec fn trim_slashes(s: Seq<char>) -> Seq<char> {
    trim_slashes_end(trim_slashes_start(s))
}

pub open spec fn trim_slashes_start(s: Seq<char>) -> Seq<char>
    decreases s.len(),
{
    if s.len() > 0 && s[0] == '/' {
        trim_slashes_start(s.drop_first())
    } else {
        s
    }
}

pub open spec fn trim_slashes_end(s: Seq<char>) -> Seq<char>
    decreases s.len(),
{
    if s.len() > 0 && s.last() == '/' {
        trim_slashes_end(s.drop_last())
    } else {
        s
    }
}

pub(crate) fn trim_slash_chars_pub(s: &[char]) -> (r: Vec<char>)
    ensures
        r@ == trim_slashes(s@),
{
    let mut start: usize = 0;
    assert(s@.skip(0) =~= s@);
    while start < s.len() && s[start] == '/'
        invariant
            start <= s@.len(),
            trim_slashes_start(s@) == trim_slashes_start(s@.skip(start as int)),
        decreases s@.len() - start,
    {
        assert(s@.skip(start as int).drop_first() =~= s@.skip(start + 1));
        start += 1;
    }
    let mut end: usize = s.len();
    assert(s@.skip(start as int).take(end - start) =~= s@.skip(start as int));
    while end > start && s[end - 1] == '/'
        invariant
            start <= end <= s@.len(),
            trim_slashes_end(s@.skip(start as int)) == trim_slashes_end(
                s@.subrange(start as int, end as int),
            ),
        decreases end,
    {
        assert(s@.subrange(start as int, end as int).drop_last() =~= s@.subrange(
            start as int,
            end - 1,
        ));
        end -= 1;
    }
    crate::text::slice_of(s, start, end)
}

pub(crate) fn trim_slashes_start_pub(s: &[char]) -> (r: Vec<char>)
    ensures
        r@ == trim_slashes_start(s@),
{
    let mut start: usize = 0;
    assert(s@.skip(0) =~= s@);
    while start < s.len() && s[start] == '/'
        invariant
            start <= s@.len(),
            trim_slashes_start(s@) == trim_slashes_start(s@.skip(start as int)),
        decreases s@.len() - start,
    {
        assert(s@.skip(start as int).drop_first() =~= s@.skip(start + 1));
        start += 1;
    }
    let r = crate::text::slice_of(s, start, s.len());
    assert(r@ =~= s@.skip(start as int));
    r
}

/// Object key builder for the storage layout:
///
/// ```text
/// {prefix}/repos/{owner}/{repo}/
///   commits/{sha}/coverage.json.zst
///   refs/{encoded_branch}/latest.json
///   prs/{pr_number}/latest.json
/// ```
#[derive(Debug, Clone)]
pub struct Keys {
    root: String,
}

impl Keys {
    /// `{prefix}/repos/{repo}`, or `repos/{repo}` without a prefix; both
    /// trimmed of `/`.
    pub closed spec fn root(self) -> Seq<char> {
        self.root@
    }

    pub fn new(prefix: &str, repo: &str) -> (r: Self)
        ensures
            r.root() == (if trim_slashes(prefix@).len() == 0 {
                "repos/"@ + trim_slashes(repo@)
            } else {
                trim_slashes(prefix@) + "/repos/"@ + trim_slashes(repo@)
            }),
    {
        let p = trim_slash_chars_pub(&chars_of(prefix));
        let r = trim_slash_chars_pub(&chars_of(repo));
        let mut root: Vec<char> = Vec::new();
        if p.len() == 0 {
            push_str(&mut root, "repos/");
        } else {
            push_chars(&mut root, &p);
            push_str(&mut root, "/repos/");
        }
        push_chars(&mut root, &r);
        Keys { root: crate::text::string_of(&root) }
    }

    /// `{root}/commits/{sha}/coverage.json.zst`.
    pub fn commit_snapshot(&self, sha: &str) -> (r: String)
        ensures
            r@ == self.root() + "/commits/"@ + sha@ + "/coverage.json.zst"@,
    {
        let mut out = chars_of(self.root.as_str());
        push_str(&mut out, "/commits/");
        push_str(&mut out, sha);
        push_str(&mut out, "/coverage.json.zst");
        crate::text::string_of(&out)
    }

    /// `{root}/commits/{sha}/comparison.json.zst`.
    pub fn commit_comparison(&self, sha: &str) -> (r: String)
        ensures
            r@ == self.root() + "/commits/"@ + sha@ + "/comparison.json.zst"@,
    {
        let mut out = chars_of(self.root.as_str());
        push_str(&mut out, "/commits/");
        push_str(&mut out, sha);
        push_str(&mut out, "/comparison.json.zst");
        crate::text::string_of(&out)
    }

    /// `{root}/commits/{sha}/html`: where the HTML report of a commit lives.
    pub fn commit_html_prefix(&self, sha: &str) -> (r: String)
        ensures
            r@ == self.root() + "/commits/"@ + sha@ + "/html"@,
    {
        let mut out = chars_of(self.root.as_str());
        push_str(&mut out, "/commits/");
        push_str(&mut out, sha);
        push_str(&mut out, "/html");
        crate::text::string_of(&out)
    }

    /// `{root}/commits/{sha}/README.md`: the Markdown report of a commit.
    pub fn commit_report(&self, sha: &str) -> (r: String)
        ensures
            r@ == self.root() + "/commits/"@ + sha@ + "/README.md"@,
    {
        let mut out = chars_of(self.root.as_str());
        push_str(&mut out, "/commits/");
        push_str(&mut out, sha);
        push_str(&mut out, "/README.md");
        crate::text::string_of(&out)
    }

    /// `{root}/refs/{encoded branch}/README.md`: the latest Markdown report
    /// of a branch.
    pub fn branch_report(&self, branch: &str) -> (r: String)
        ensures
            r@ == self.root() + "/refs/"@ + percent_encoded(vstd::utf8::encode_utf8(branch@))
                + "/README.md"@,
    {
        let mut out = chars_of(self.root.as_str());
        push_str(&mut out, "/refs/");
        let encoded = encode_branch(branch);
        push_str(&mut out, encoded.as_str());
        push_str(&mut out, "/README.md");
        crate::text::string_of(&out)
    }

    /// `{root}/prs/{pr_number}/README.md`: the latest Markdown report of a
    /// pull request.
    pub fn pr_report(&self, pr_number: u64) -> (r: String)
        ensures
            r@ == self.root() + "/prs/"@ + dec(pr_number as nat) + "/README.md"@,
    {
        let mut out = chars_of(self.root.as_str());
        push_str(&mut out, "/prs/");
        push_dec(&mut out, pr_number);
        push_str(&mut out, "/README.md");
        crate::text::string_of(&out)
    }

    /// `{root}/refs/{encoded branch}/latest.json`.
    pub fn branch_pointer(&self, branch: &str) -> (r: String)
        ensures
            r@ == self.root() + "/refs/"@ + percent_encoded(vstd::utf8::encode_utf8(branch@))
                + "/latest.json"@,
    {
        let mut out = chars_of(self.root.as_str());
        push_str(&mut out, "/refs/");
        let encoded = encode_branch(branch);
        push_str(&mut out, encoded.as_str());
        push_str(&mut out, "/latest.json");
        crate::text::string_of(&out)
    }

    /// `{root}/prs/{pr_number}/latest.json`.
    pub fn pr_pointer(&self, pr_number: u64) -> (r: String)
        ensures
            r@ == self.root() + "/prs/"@ + dec(pr_number as nat) + "/latest.json"@,
    {
        let mut out = chars_of(self.root.as_str());
        push_str(&mut out, "/prs/");
        push_dec(&mut out, pr_number);
        push_str(&mut out, "/latest.json");
        crate::text::string_of(&out)
    }

    /// `{root}/prs/{pr_number}/report`.
    pub fn pr_report_dir(&self, pr_number: u64) -> (r: String)
        ensures
            r@ == self.root() + "/prs/"@ + dec(pr_number as nat) + "/report"@,
    {
        let mut out = chars_of(self.root.as_str());
        push_str(&mut out, "/prs/");
        push_dec(&mut out, pr_number);
        push_str(&mut out, "/report");
        crate::text::string_of(&out)
    }
}

/// Errors of the storage backends.
#[derive(Debug, Clone, PartialEq, Eq)]
pub enum StorageError {
    /// A conditional write lost (generation mismatch).
    PreconditionFailed { key: String },
    /// Local I/O failed; `message` describes the underlying error.
    Io { key: String, message: String },
    Http { key: String, message: String },
    UnexpectedStatus { key: String, status: u16, body: String },
}

impl StorageError {
    /// What went wrong, for the user.
    pub fn describe(&self) -> (r: String)
        ensures
            match self {
                StorageError::PreconditionFailed { key } => r@
                    == "precondition failed (generation mismatch) for "@ + key@,
                StorageError::Io { key, message } => r@ == "storage I/O error for "@ + key@ + ": "@
                    + message@,
                StorageError::Http { key, message } => r@ == "http error for "@ + key@ + ": "@
                    + message@,
                StorageError::UnexpectedStatus { key, status, body } => r@ == "unexpected status "@
                    + dec(*status as nat) + " for "@ + key@ + ": "@ + body@,
            },
    {
        let mut out: Vec<char> = Vec::new();
        match self {
            StorageError::PreconditionFailed { key } => {
                push_str(&mut out, "precondition failed (generation mismatch) for ");
                push_str(&mut out, key.as_str());
            },
            StorageError::Io { key, message } => {
                push_str(&mut out, "storage I/O error for ");
                push_str(&mut out, key.as_str());
                push_str(&mut out, ": ");
                push_str(&mut out, message.as_str());
            },
            StorageError::Http { key, message } => {
                push_str(&mut out, "http error for ");
                push_str(&mut out, key.as_str());
                push_str(&mut out, ": ");
                push_str(&mut out, message.as_str());
            },
            StorageError::UnexpectedStatus { key, status, body } => {
                push_str(&mut out, "unexpected status ");
                push_dec(&mut out, *status as u64);
                push_str(&mut out, " for ");
                push_str(&mut out, key.as_str());
                push_str(&mut out, ": ");
                push_str(&mut out, body.as_str());
            },
        }
        crate::text::string_of(&out)
    }
}

/// An object read from storage together with its generation number, used for
/// conditional writes ([`PutOptions::if_generation_match`]).
#[derive(Debug, Clone, PartialEq, Eq)]
pub struct StoredObject {
    pub data: Vec<u8>,
    /// GCS object generation. `0` on backends without generations (local).
    pub generation: i64,
}

#[derive(Debug, Clone, Copy)]
pub struct PutOptions {
    /// Conditional write: only succeed if the current generation matches.
    /// `Some(0)` means "only if the object does not exist yet".
    pub if_generation_match: Option<i64>,
    pub content_type: &'static str,
}

impl PutOptions {
    /// No precondition, generic binary content.
    pub fn plain() -> (r: Self)
        ensures
            r.if_generation_match is None,
            r.content_type@ == "application/octet-stream"@,
    {
        PutOptions { if_generation_match: None, content_type: "application/octet-stream" }
    }
}

/// A store of snapshot objects by key.
pub trait StorageBackend {
    fn get(&self, key: &str) -> Result<Option<StoredObject>, StorageError>;

    fn put(&self, key: &str, data: &[u8], opts: PutOptions) -> Result<(), StorageError>;

    fn object_exists(&self, key: &str) -> Result<bool, StorageError>;
}

pub const POINTER_SCHEMA_VERSION: u32 = 1;

/// `refs/{encoded_branch}/latest.json` payload: the latest snapshot known for
/// a branch (also reused for `prs/{n}/latest.json`).
#[derive(Debug, Clone, PartialEq, Eq)]
pub struct BranchPointer {
    pub schema_version: u32,
    pub branch: String,
    pub commit_sha: String,
    /// Git commit timestamp (RFC 3339). Orders pointer updates so a re-run of
    /// an old workflow cannot roll the pointer back to an older commit.
    pub committed_at: String,
    pub snapshot_key: String,
    pub comparison_key: Option<String>,
    pub report_key: Option<String>,
    pub updated_at: String,
}

#[derive(Debug, Clone, Copy, PartialEq, Eq, Structural)]
pub enum PointerUpdate {
    Updated,
    SkippedOlder,
}

/// A key that names a file below a local storage root: not empty, not
/// absolute, without a backslash, and with no empty, `.` or `..` segment.
pub open spec fn valid_object_key(key: Seq<char>) -> bool {
    &&& key.len() > 0
    &&& key[0] != '/'
    &&& !key.contains('\\')
    &&& forall|i: int|
        0 <= i < split(key, '/').len() ==> #[trigger] split(key, '/')[i].len() > 0
            && !is_dot_part(split(key, '/')[i])
}

/// Whether `key` may be written below a local storage root.
pub fn is_valid_object_key(key: &str) -> (r: bool)
    ensures
        r == valid_object_key(key@),
{
    let cs = chars_of(key);
    if cs.len() == 0 || cs[0] == '/' || crate::text::contains_char(&cs, '\\') {
        return false;
    }
    let parts = crate::text::split_char(&cs, '/');
    let dot = chars_of(".");
    let dotdot = chars_of("..");
    proof {
        reveal_strlit(".");
        reveal_strlit("..");
        assert(dot@ =~= seq!['.']);
        assert(dotdot@ =~= seq!['.', '.']);
    }
    let mut i: usize = 0;
    while i < parts.len()
        invariant
            i <= parts@.len(),
            cs@ == key@,
            dot@ == seq!['.'],
            dotdot@ == seq!['.', '.'],
            parts@.map_values(|v: Vec<char>| v@) == split(key@, '/'),
            forall|j: int|
                0 <= j < i ==> #[trigger] split(key@, '/')[j].len() > 0 && !is_dot_part(
                    split(key@, '/')[j],
                ),
        decreases parts@.len() - i,
    {
        assert(parts@.map_values(|v: Vec<char>| v@)[i as int] == parts@[i as int]@);
        let part = &parts[i];
        if part.len() == 0 || crate::text::seq_eq(part, &dot) || crate::text::seq_eq(part, &dotdot) {
            return false;
        }
        i += 1;
    }
    true
}

} // verus!
