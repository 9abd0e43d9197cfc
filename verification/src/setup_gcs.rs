//! The plan for provisioning Google Cloud Storage for GitHub Actions: the
//! names of the bucket, identity pool, provider and service account derived
//! from the project and repository.
use vstd::prelude::*;

use crate::github_storage::owner_name_of;
use crate::text::{
    ascii_lower, byte_boundary, byte_prefix, chars_of, dec, is_alnum, is_ascii, push_chars,
    push_dec, push_str, split,
};

verus! {

/// Options of the provisioning command.
#[derive(Debug, Clone)]
pub struct SetupGcsArgs {
    /// GCP project ID (the only required input)
    pub project: String,
    /// GitHub repository slug "owner/name" (default: parsed from `origin`)
    pub repo: Option<String>,
    /// Bucket name (default: "{project}-badgers-coverage")
    pub bucket: Option<String>,
    /// Bucket location
    pub location: String,
    /// Workload identity pool ID, shared across repositories
    pub pool: String,
    /// OIDC provider ID (default: "gh-{repo name}", one per repository)
    pub provider: Option<String>,
    /// Service account name (default: "badgers-{repo name}")
    pub service_account: Option<String>,
    /// Immutable GitHub repository ID (default: resolved via `gh api`)
    pub repository_id: Option<u64>,
    /// Print mutating commands instead of executing them
    pub dry_run: bool,
}

/// What `str::to_lowercase` makes of a string.
pub uninterp spec fn lowercase_of(s: Seq<char>) -> Seq<char>;

/// `str::to_lowercase`: the Unicode lower case of `s`; ASCII text is lowered
/// letter by letter. What it does to other characters is not stated here.
#[verifier::external_body]
fn to_lowercase(s: &str) -> (r: String)
    ensures
        r@ == lowercase_of(s@),
        (forall|i: int| 0 <= i < s@.len() ==> is_ascii(#[trigger] s@[i])) ==> r@ == ascii_lower(s@),
{
    s.to_lowercase()
}

/// Characters other than ASCII letters and digits as `-`.
pub open spec fn dashed(s: Seq<char>) -> Seq<char> {
    s.map_values(|c: char| if is_alnum(c) { c } else { '-' })
}

/// `s` without leading `-`.
pub open spec fn trim_start_dashes(s: Seq<char>) -> Seq<char>
    decreases s.len(),
{
    if s.len() > 0 && s[0] == '-' {
        trim_start_dashes(s.drop_first())
    } else {
        s
    }
}

/// `s` without trailing `-`.
pub open spec fn trim_end_dashes(s: Seq<char>) -> Seq<char>
    decreases s.len(),
{
    if s.len() > 0 && s.last() == '-' {
        trim_end_dashes(s.drop_last())
    } else {
        s
    }
}

/// A resource name: lowered, every character other than an ASCII letter or
/// digit made `-`, without leading or trailing `-`, at most `max_len`
/// characters long.
pub open spec fn sanitized(lowered: Seq<char>, max_len: nat) -> Seq<char> {
    let t = trim_end_dashes(trim_start_dashes(dashed(lowered)));
    trim_end_dashes(if t.len() > max_len { t.take(max_len as int) } else { t })
}

fn trim_dashes_exec(s: &[char], start_side: bool, end_side: bool) -> (r: Vec<char>)
    ensures
        r@ == if end_side {
            trim_end_dashes(if start_side { trim_start_dashes(s@) } else { s@ })
        } else if start_side {
            trim_start_dashes(s@)
        } else {
            s@
        },
{
    let mut lo: usize = 0;
    if start_side {
        assert(s@.skip(0) =~= s@);
        while lo < s.len() && s[lo] == '-'
            invariant
                lo <= s@.len(),
                trim_start_dashes(s@.skip(lo as int)) == trim_start_dashes(s@),
            decreases s@.len() - lo,
        {
            assert(s@.skip(lo as int).drop_first() =~= s@.skip(lo + 1));
            lo += 1;
        }
    }
    let ghost mid = if start_side { trim_start_dashes(s@) } else { s@ };
    assert(s@.skip(lo as int) == mid);
    let mut hi: usize = s.len();
    if end_side {
        assert(s@.subrange(lo as int, hi as int) =~= mid);
        while hi > lo && s[hi - 1] == '-'
            invariant
                lo <= hi <= s@.len(),
                trim_end_dashes(s@.subrange(lo as int, hi as int)) == trim_end_dashes(mid),
            decreases hi - lo,
        {
            assert(s@.subrange(lo as int, hi as int).drop_last() =~= s@.subrange(lo as int, hi - 1));
            hi -= 1;
        }
    }
    let r = crate::text::slice_of(s, lo, hi);
    assert(r@ =~= s@.subrange(lo as int, hi as int));
    r
}

/// A resource name made from `name`: lowered, other characters than ASCII
/// letters and digits as `-`, trimmed of `-` and cut to `max_len` characters.
pub fn sanitize(name: &str, max_len: usize) -> (r: String)
    ensures
        r@ == sanitized(lowercase_of(name@), max_len as nat),
{
    let lowered = to_lowercase(name);
    let cs = chars_of(lowered.as_str());
    let mut cleaned: Vec<char> = Vec::new();
    let mut i: usize = 0;
    while i < cs.len()
        invariant
            i <= cs@.len(),
            cleaned@ == dashed(cs@.take(i as int)),
        decreases cs@.len() - i,
    {
        if crate::text::char_is_alnum(cs[i]) {
            cleaned.push(cs[i]);
        } else {
            cleaned.push('-');
        }
        i += 1;
        assert(cleaned@ =~= dashed(cs@.take(i as int)));
    }
    assert(cs@.take(i as int) =~= cs@);
    let t = trim_dashes_exec(&cleaned, true, true);
    let n = if t.len() > max_len { max_len } else { t.len() };
    let cut = crate::text::slice_of(&t, 0, n);
    let ghost tt = if t@.len() > max_len { t@.take(max_len as int) } else { t@ };
    assert(cut@ =~= tt);
    let r = trim_dashes_exec(&cut, false, true);
    crate::text::string_of(&r)
}

/// At most the first `max_len` bytes of `s`, which end at a character boundary.
pub fn truncate(s: &str, max_len: usize) -> (r: String)
    requires
        byte_boundary(s@, max_len as nat),
    ensures
        r@ == byte_prefix(s@, max_len as nat),
{
    crate::text::utf8_prefix(s, max_len)
}

/// The `owner/name` of a Git remote URL: its last two parts after any
/// `host:`, without trailing `.git`, both non-empty and the owner without `@`.
pub open spec fn remote_repo_of(url: Seq<char>) -> Option<Seq<char>> {
    match owner_name_of(url) {
        Some((owner, name)) => if name.len() > 0 && owner.len() > 0 && !owner.contains('@') {
            Some(owner + seq!['/'] + name)
        } else {
            None
        },
        None => None,
    }
}

/// The repository a Git remote URL names.
pub fn parse_repo_url(url: &str) -> (r: Option<String>)
    ensures
        match remote_repo_of(url@) {
            Some(repo) => r matches Some(s) && s@ == repo,
            None => r is None,
        },
{
    match crate::github_storage::remote_owner_name(url) {
        Some((owner, name)) => {
            if name.len() == 0 || owner.len() == 0 || crate::text::contains_char(&owner, '@') {
                return None;
            }
            let mut repo: Vec<char> = Vec::new();
            push_chars(&mut repo, &owner);
            repo.push('/');
            push_chars(&mut repo, &name);
            assert(repo@ =~= owner@ + seq!['/'] + name@);
            Some(crate::text::string_of(&repo))
        },
        None => None,
    }
}

/// The name part of an `owner/name` slug: its second `/`-separated part.
pub open spec fn repo_name_of(repo: Seq<char>) -> Option<Seq<char>> {
    let parts = split(repo, '/');
    if parts.len() >= 2 {
        Some(parts[1])
    } else {
        None
    }
}

pub fn repo_name(repo: &str) -> (r: Option<String>)
    ensures
        match repo_name_of(repo@) {
            Some(n) => r matches Some(s) && s@ == n,
            None => r is None,
        },
{
    let cs = chars_of(repo);
    let parts = crate::text::split_char(&cs, '/');
    if parts.len() < 2 {
        assert(parts@.map_values(|v: Vec<char>| v@).len() == parts@.len());
        return None;
    }
    assert(parts@.map_values(|v: Vec<char>| v@)[1] == parts@[1]@);
    Some(crate::text::string_of(&parts[1]))
}

/// The resources to provision.
#[derive(Debug, Clone)]
pub struct Plan {
    pub project: String,
    pub project_number: String,
    pub repo: String,
    pub repository_id: String,
    pub bucket: String,
    pub location: String,
    pub pool: String,
    pub provider: String,
    pub sa_email: String,
    pub sa_name: String,
}

pub open spec fn or_default(v: Option<String>, d: Seq<char>) -> Seq<char> {
    match v {
        Some(s) => s@,
        None => d,
    }
}

impl Plan {
    /// The plan for `repo`, named `repo_name`, given the project number and
    /// repository ID that were looked up: each unset name gets its default.
    pub fn new(
        args: &SetupGcsArgs,
        repo: String,
        repo_name: &str,
        project_number: String,
        repository_id: String,
    ) -> (r: Self)
        ensures
            r.project@ == args.project@,
            r.project_number@ == project_number@,
            r.repo@ == repo@,
            r.repository_id@ == repository_id@,
            r.bucket@ == or_default(args.bucket, args.project@ + "-badgers-coverage"@),
            r.location@ == args.location@,
            r.pool@ == args.pool@,
            r.provider@ == or_default(
                args.provider,
                sanitized(lowercase_of("gh-"@ + repo_name@), 32),
            ),
            r.sa_name@ == or_default(
                args.service_account,
                sanitized(lowercase_of("badgers-"@ + repo_name@), 30),
            ),
            r.sa_email@ == r.sa_name@ + "@"@ + args.project@ + ".iam.gserviceaccount.com"@,
    {
        let sa_name = match &args.service_account {
            Some(s) => crate::text::string_of(&chars_of(s.as_str())),
            None => {
                let mut n: Vec<char> = Vec::new();
                push_str(&mut n, "badgers-");
                push_str(&mut n, repo_name);
                let n = crate::text::string_of(&n);
                sanitize(n.as_str(), 30)
            },
        };
        let provider = match &args.provider {
            Some(s) => crate::text::string_of(&chars_of(s.as_str())),
            None => {
                let mut n: Vec<char> = Vec::new();
                push_str(&mut n, "gh-");
                push_str(&mut n, repo_name);
                let n = crate::text::string_of(&n);
                sanitize(n.as_str(), 32)
            },
        };
        let bucket = match &args.bucket {
            Some(s) => crate::text::string_of(&chars_of(s.as_str())),
            None => {
                let mut n: Vec<char> = Vec::new();
                push_str(&mut n, args.project.as_str());
                push_str(&mut n, "-badgers-coverage");
                crate::text::string_of(&n)
            },
        };
        let mut email: Vec<char> = Vec::new();
        push_str(&mut email, sa_name.as_str());
        push_str(&mut email, "@");
        push_str(&mut email, args.project.as_str());
        push_str(&mut email, ".iam.gserviceaccount.com");
        Plan {
            project: crate::text::string_of(&chars_of(args.project.as_str())),
            project_number,
            repo,
            repository_id,
            bucket,
            location: crate::text::string_of(&chars_of(args.location.as_str())),
            pool: crate::text::string_of(&chars_of(args.pool.as_str())),
            provider,
            sa_email: crate::text::string_of(&email),
            sa_name,
        }
    }

    /// The identity that GitHub Actions runs of the repository assume.
    pub fn principal_set(&self) -> (r: String)
        ensures
            r@ == "principalSet://iam.googleapis.com/projects/"@ + self.project_number@
                + "/locations/global/workloadIdentityPools/"@ + self.pool@
                + "/attribute.repository_id/"@ + self.repository_id@,
    {
        let mut out: Vec<char> = Vec::new();
        push_str(&mut out, "principalSet://iam.googleapis.com/projects/");
        push_str(&mut out, self.project_number.as_str());
        push_str(&mut out, "/locations/global/workloadIdentityPools/");
        push_str(&mut out, self.pool.as_str());
        push_str(&mut out, "/attribute.repository_id/");
        push_str(&mut out, self.repository_id.as_str());
        crate::text::string_of(&out)
    }

    /// The full resource name of the OIDC provider.
    pub fn provider_resource(&self) -> (r: String)
        ensures
            r@ == "projects/"@ + self.project_number@ + "/locations/global/workloadIdentityPools/"@
                + self.pool@ + "/providers/"@ + self.provider@,
    {
        let mut out: Vec<char> = Vec::new();
        push_str(&mut out, "projects/");
        push_str(&mut out, self.project_number.as_str());
        push_str(&mut out, "/locations/global/workloadIdentityPools/");
        push_str(&mut out, self.pool.as_str());
        push_str(&mut out, "/providers/");
        push_str(&mut out, self.provider.as_str());
        crate::text::string_of(&out)
    }

    /// The provider accepts tokens of this repository only.
    pub fn attribute_condition(&self) -> (r: String)
        ensures
            r@ == "assertion.repository_id == '"@ + self.repository_id@ + "'"@,
    {
        let mut out: Vec<char> = Vec::new();
        push_str(&mut out, "assertion.repository_id == '");
        push_str(&mut out, self.repository_id.as_str());
        push_str(&mut out, "'");
        crate::text::string_of(&out)
    }

    /// What the command prints before it starts: the resolved names.
    pub open spec fn header_text_of(self) -> Seq<char> {
        "project:        "@ + self.project@ + " ("@ + self.project_number@ + ")\n"@
            + "repository:     "@ + self.repo@ + " (id "@ + self.repository_id@ + ")\n"@
            + "bucket:         gs://"@ + self.bucket@ + " ("@ + self.location@ + ")\n"@
            + "pool/provider:  "@ + self.pool@ + "/"@ + self.provider@ + "\n"@
            + "service acct:   "@ + self.sa_email@ + "\n"@ + "\n"@
    }

    /// The header of the command's output, one line per resolved name,
    /// and an empty line.
    pub fn header_text(&self) -> (r: String)
        ensures
            r@ == self.header_text_of(),
    {
        let mut out: Vec<char> = Vec::new();
        push_str(&mut out, "project:        ");
        push_str(&mut out, self.project.as_str());
        push_str(&mut out, " (");
        push_str(&mut out, self.project_number.as_str());
        push_str(&mut out, ")\n");
        push_str(&mut out, "repository:     ");
        push_str(&mut out, self.repo.as_str());
        push_str(&mut out, " (id ");
        push_str(&mut out, self.repository_id.as_str());
        push_str(&mut out, ")\n");
        push_str(&mut out, "bucket:         gs://");
        push_str(&mut out, self.bucket.as_str());
        push_str(&mut out, " (");
        push_str(&mut out, self.location.as_str());
        push_str(&mut out, ")\n");
        push_str(&mut out, "pool/provider:  ");
        push_str(&mut out, self.pool.as_str());
        push_str(&mut out, "/");
        push_str(&mut out, self.provider.as_str());
        push_str(&mut out, "\n");
        push_str(&mut out, "service acct:   ");
        push_str(&mut out, self.sa_email.as_str());
        push_str(&mut out, "\n");
        push_str(&mut out, "\n");
        crate::text::string_of(&out)
    }

    /// The workflow steps that use what was set up.
    pub open spec fn workflow_snippet_of(self) -> Seq<char> {
        "\nSetup complete. Add this to your workflow before the badgers step:\n\n"@
            + "    permissions:\n      contents: read\n      id-token: write\n      pull-requests: write\n\n"@
            + "      - uses: google-github-actions/auth@v3\n        with:\n          project_id: "@
            + self.project@ + "\n          workload_identity_provider: "@ + "projects/"@
            + self.project_number@ + "/locations/global/workloadIdentityPools/"@ + self.pool@
            + "/providers/"@ + self.provider@ + "\n          service_account: "@ + self.sa_email@
            + "\n\n      - uses: devgony/badgers@main\n        with:\n          gcs-bucket: "@
            + self.bucket@ + "\n"@
    }

    /// What the command prints when it is done: the workflow steps that
    /// authenticate with the new provider and upload to the bucket.
    pub fn workflow_snippet(&self) -> (r: String)
        ensures
            r@ == self.workflow_snippet_of(),
    {
        let mut out: Vec<char> = Vec::new();
        push_str(&mut out, "\nSetup complete. Add this to your workflow before the badgers step:\n\n");
        push_str(&mut out, "    permissions:\n      contents: read\n      id-token: write\n      pull-requests: write\n\n");
        push_str(&mut out, "      - uses: google-github-actions/auth@v3\n        with:\n          project_id: ");
        push_str(&mut out, self.project.as_str());
        push_str(&mut out, "\n          workload_identity_provider: ");
        let resource = self.provider_resource();
        push_str(&mut out, resource.as_str());
        push_str(&mut out, "\n          service_account: ");
        push_str(&mut out, self.sa_email.as_str());
        push_str(&mut out, "\n\n      - uses: devgony/badgers@main\n        with:\n          gcs-bucket: ");
        push_str(&mut out, self.bucket.as_str());
        push_str(&mut out, "\n");
        crate::text::string_of(&out)
    }
}

// ---------------------------------------------------------------------------
// Decisions of the provisioning run.
// ---------------------------------------------------------------------------

/// What the provisioning run finds of the OIDC provider it would create.
#[derive(Debug, Clone, Copy, PartialEq, Eq, Structural)]
pub enum ProviderState {
    /// It exists with the expected attribute condition: left as it is.
    Matches,
    /// It exists with another condition: left as it is, with a warning.
    Differs,
    /// It could not be described: it is created.
    Missing,
}

/// The provider's attribute condition as read back (`None` when describing
/// it failed), trimmed, against the expected one.
pub fn provider_state(existing: Option<&str>, expected: &str) -> (r: ProviderState)
    ensures
        match existing {
            None => r == ProviderState::Missing,
            Some(e) => if crate::text::trim(e@) == expected@ {
                r == ProviderState::Matches
            } else {
                r == ProviderState::Differs
            },
        },
{
    match existing {
        None => ProviderState::Missing,
        Some(e) => {
            let t = crate::text::trim_chars(&chars_of(e));
            if crate::text::eq_str(&t, expected) {
                ProviderState::Matches
            } else {
                ProviderState::Differs
            }
        },
    }
}

/// The warning for a provider that exists with another attribute
/// condition (the one read back is shown trimmed).
pub open spec fn provider_warning_text(
    provider: Seq<char>,
    existing: Seq<char>,
    expected: Seq<char>,
) -> Seq<char> {
    "::warning::provider "@ + provider + " exists with a different attribute condition\n  existing: "@
        + crate::text::trim(existing) + "\n  expected: "@ + expected
        + "\n  (fix manually or pass --provider to create a new one)"@
}

pub fn provider_warning(provider: &str, existing: &str, expected: &str) -> (r: String)
    ensures
        r@ == provider_warning_text(provider@, existing@, expected@),
{
    let mut out: Vec<char> = Vec::new();
    push_str(&mut out, "::warning::provider ");
    push_str(&mut out, provider);
    push_str(&mut out, " exists with a different attribute condition\n  existing: ");
    let t = crate::text::trim_chars(&chars_of(existing));
    push_chars(&mut out, &t);
    push_str(&mut out, "\n  expected: ");
    push_str(&mut out, expected);
    push_str(&mut out, "\n  (fix manually or pass --provider to create a new one)");
    proof {
        assert(out@ =~= provider_warning_text(provider@, existing@, expected@));
    }
    crate::text::string_of(&out)
}

/// The note for a resource that already exists and is left as it is.
pub fn already_exists_note(kind: &str, name: &str) -> (r: String)
    ensures
        r@ == kind@ + " already exists: "@ + name@,
{
    let mut out: Vec<char> = Vec::new();
    push_str(&mut out, kind);
    push_str(&mut out, " already exists: ");
    push_str(&mut out, name);
    proof {
        assert(out@ =~= kind@ + " already exists: "@ + name@);
    }
    crate::text::string_of(&out)
}

} // verus!
