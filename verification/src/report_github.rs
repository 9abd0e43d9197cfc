//! The pull-request comment and check annotations published to GitHub.
use vstd::prelude::*;

use crate::compare::{Comparison, FileDelta, counts_total, diff_total, head_side, base_side};
use crate::github::CheckAnnotation;
use crate::github_storage::{
    GithubReportLocation, html_escaped, normalized_prefix, safe_branch, valid_repo_slug, valid_sha,
};
use crate::pct::{Delta, fixed2, pct_text};
use crate::text::{
    ascii_lower, chars_of, dec, hex_upper, is_alnum, is_ascii, is_control, is_whitespace, join,
    push_chars, push_dec, push_str, split, starts_with, strip_prefix,
};

verus! {

/// Options of the GitHub report: where it goes and what it links to.
#[derive(Debug, Clone)]
pub struct GithubArgs {
    /// Head coverage snapshot JSON
    pub head: String,
    /// Base coverage snapshot JSON to compare against
    pub base: Option<String>,
    /// Git range for changed lines, e.g. "origin/main...HEAD" (runs git diff)
    pub git_diff: Option<String>,
    /// Repository root for git
    pub repo_root: String,
    /// Repository slug, e.g. "owner/repo" (comment target)
    pub repo: String,
    /// Pull request number to comment on
    pub pr: u64,
    /// Head commit SHA shown in the comment
    pub head_sha: Option<String>,
    /// Baseline description shown in the comment, e.g. "exact abc1234"
    pub baseline_label: Option<String>,
    /// Link to the full HTML report (artifact or hosted)
    pub report_url: Option<String>,
    /// Link to the durable detailed Markdown coverage report
    pub markdown_report_url: Option<String>,
    /// Link to the pull request's Files changed view and annotations
    pub files_changed_url: Option<String>,
    /// GitHub repository containing the durable HTML report branch
    pub storage_repo: Option<String>,
    /// Dedicated branch containing durable reports
    pub storage_branch: String,
    /// Path prefix inside the durable report branch
    pub storage_prefix: String,
    /// Emit a warning instead of failing when the comment cannot be posted
    pub soft_fail: bool,
    /// Skip the marker-based pull request comment
    pub skip_comment: bool,
    /// Publish a GitHub check run with uncovered changed-line annotations
    pub check_annotations: bool,
}

// ---------------------------------------------------------------------------
// URLs.
// ---------------------------------------------------------------------------

pub open spec fn unsafe_url_char(c: char) -> bool {
    is_control(c) || is_whitespace(c) || c == '"' || c == '<' || c == '>'
}

pub open spec fn has_unsafe_url_char(s: Seq<char>) -> bool {
    exists|i: int| 0 <= i < s.len() && unsafe_url_char(#[trigger] s[i])
}

/// The text before the first `/`.
pub open spec fn first_segment(s: Seq<char>) -> Seq<char> {
    split(s, '/')[0]
}

/// Why a navigation link is refused, if it is.
pub open spec fn navigation_url_error(url: Seq<char>, label: Seq<char>) -> Option<Seq<char>> {
    match strip_prefix(url, "https://"@) {
        None => Some(label + " must use https://"@),
        Some(rest) => {
            let authority = first_segment(rest);
            if authority.len() == 0 || authority.contains('@') || url.contains('?') || url.contains(
                '#',
            ) || has_unsafe_url_char(url) {
                Some(label + " contains unsafe characters or components"@)
            } else {
                None
            }
        },
    }
}

/// The text before the first `/`, `?` or `#`.
pub open spec fn authority_of(s: Seq<char>) -> Seq<char>
    decreases s.len(),
{
    if s.len() == 0 {
        seq![]
    } else if s[0] == '/' || s[0] == '?' || s[0] == '#' {
        seq![]
    } else {
        seq![s[0]] + authority_of(s.drop_first())
    }
}

/// Why an HTML report link is refused, if it is.
pub open spec fn report_url_error(url: Seq<char>) -> Option<Seq<char>> {
    let rest = match strip_prefix(url, "https://"@) {
        Some(r) => Some(r),
        None => strip_prefix(url, "http://"@),
    };
    match rest {
        None => Some("HTML report URL must use http:// or https://"@),
        Some(r) => {
            let authority = authority_of(r);
            if authority.len() == 0 || authority.contains('@') || has_unsafe_url_char(url) {
                Some("HTML report URL contains unsafe characters or components"@)
            } else {
                None
            }
        },
    }
}

fn any_unsafe_url_char(s: &[char]) -> (r: bool)
    ensures
        r == has_unsafe_url_char(s@),
{
    let mut i: usize = 0;
    while i < s.len()
        invariant
            i <= s@.len(),
            forall|j: int| 0 <= j < i ==> !unsafe_url_char(#[trigger] s@[j]),
        decreases s@.len() - i,
    {
        let c = s[i];
        if crate::text::char_is_control(c) || crate::text::char_is_whitespace(c) || c == '"' || c
            == '<' || c == '>' {
            assert(unsafe_url_char(s@[i as int]));
            return true;
        }
        i += 1;
    }
    false
}

/// An `https://` link without credentials, query, fragment or unsafe characters.
pub fn validate_navigation_url(url: Option<&str>, label: &str) -> (r: Result<(), String>)
    ensures
        match url {
            None => r is Ok,
            Some(u) => match navigation_url_error(u@, label@) {
                None => r is Ok,
                Some(m) => r matches Err(e) && e@ == m,
            },
        },
{
    let u = match url {
        None => return Ok(()),
        Some(u) => u,
    };
    let cs = chars_of(u);
    let https = chars_of("https://");
    let rest = match crate::text::strip_prefix_chars(&cs, &https) {
        Some(rest) => rest,
        None => {
            let mut m = chars_of(label);
            push_str(&mut m, " must use https://");
            return Err(crate::text::string_of(&m));
        },
    };
    let parts = crate::text::split_char(&rest, '/');
    assert(parts@.map_values(|v: Vec<char>| v@) == split(rest@, '/'));
    proof {
        crate::text::lemma_split_nonempty(rest@, '/');
    }
    let authority = &parts[0];
    assert(authority@ == first_segment(rest@));
    if authority.len() == 0 || crate::text::contains_char(authority, '@') || crate::text::contains_char(&cs, '?')
        || crate::text::contains_char(&cs, '#') || any_unsafe_url_char(&cs) {
        let mut m = chars_of(label);
        push_str(&mut m, " contains unsafe characters or components");
        return Err(crate::text::string_of(&m));
    }
    Ok(())
}

/// A control or white-space character.
pub open spec fn has_blank_or_control(s: Seq<char>) -> bool {
    exists|i: int| 0 <= i < s.len() && (is_control(#[trigger] s[i]) || is_whitespace(s[i]))
}

fn any_blank_or_control(s: &[char]) -> (r: bool)
    ensures
        r == has_blank_or_control(s@),
{
    let mut i: usize = 0;
    while i < s.len()
        invariant
            i <= s@.len(),
            forall|j: int| 0 <= j < i ==> !(is_control(#[trigger] s@[j]) || is_whitespace(s@[j])),
        decreases s@.len() - i,
    {
        let c = s[i];
        if crate::text::char_is_control(c) || crate::text::char_is_whitespace(c) {
            assert(is_control(s@[i as int]) || is_whitespace(s@[i as int]));
            return true;
        }
        i += 1;
    }
    false
}

/// Why a GitHub API base URL is refused, if it is.
pub open spec fn api_url_error(url: Seq<char>) -> Option<Seq<char>> {
    match strip_prefix(url, "https://"@) {
        None => Some("GITHUB_API_URL must use https://"@),
        Some(rest) => {
            let authority = first_segment(rest);
            if authority.len() == 0 || authority.contains('@') || has_blank_or_control(url) {
                Some("GITHUB_API_URL contains unsafe components"@)
            } else {
                None
            }
        },
    }
}

/// The GitHub API base URL must be `https://` with a host and no
/// credentials, control characters or white space.
pub fn validate_api_url(url: &str) -> (r: Result<(), String>)
    ensures
        match api_url_error(url@) {
            None => r is Ok,
            Some(m) => r matches Err(e) && e@ == m,
        },
{
    let cs = chars_of(url);
    let https = chars_of("https://");
    let rest = match crate::text::strip_prefix_chars(&cs, &https) {
        Some(rest) => rest,
        None => return Err(crate::text::string_of(&chars_of("GITHUB_API_URL must use https://"))),
    };
    let parts = crate::text::split_char(&rest, '/');
    assert(parts@.map_values(|v: Vec<char>| v@) == split(rest@, '/'));
    proof {
        crate::text::lemma_split_nonempty(rest@, '/');
    }
    let authority = &parts[0];
    assert(authority@ == first_segment(rest@));
    let blank = any_blank_or_control(&cs);
    if authority.len() == 0 || crate::text::contains_char(authority, '@') || blank {
        return Err(crate::text::string_of(&chars_of("GITHUB_API_URL contains unsafe components")));
    }
    Ok(())
}

fn authority_chars(s: &[char]) -> (r: Vec<char>)
    ensures
        r@ == authority_of(s@),
{
    let mut i: usize = 0;
    while i < s.len() && s[i] != '/' && s[i] != '?' && s[i] != '#'
        invariant
            i <= s@.len(),
            forall|j: int| 0 <= j < i ==> s@[j] != '/' && s@[j] != '?' && s@[j] != '#',
        decreases s@.len() - i,
    {
        i += 1;
    }
    let r = crate::text::slice_of(s, 0, i);
    proof {
        lemma_authority_of(s@, i as int);
    }
    r
}

proof fn lemma_authority_of(s: Seq<char>, k: int)
    requires
        0 <= k <= s.len(),
        forall|j: int| 0 <= j < k ==> s[j] != '/' && s[j] != '?' && s[j] != '#',
        k < s.len() ==> (s[k] == '/' || s[k] == '?' || s[k] == '#'),
    ensures
        authority_of(s) == s.subrange(0, k),
    decreases k,
{
    if k == 0 {
        assert(s.subrange(0, 0) =~= Seq::<char>::empty());
    } else {
        lemma_authority_of(s.drop_first(), k - 1);
        assert(seq![s[0]] + s.drop_first().subrange(0, k - 1) =~= s.subrange(0, k));
    }
}

/// An `http(s)://` link without credentials or unsafe characters.
pub fn validate_report_url(url: Option<&str>) -> (r: Result<(), String>)
    ensures
        match url {
            None => r is Ok,
            Some(u) => match report_url_error(u@) {
                None => r is Ok,
                Some(m) => r matches Err(e) && e@ == m,
            },
        },
{
    let u = match url {
        None => return Ok(()),
        Some(u) => u,
    };
    let cs = chars_of(u);
    let https = chars_of("https://");
    let http = chars_of("http://");
    let rest = match crate::text::strip_prefix_chars(&cs, &https) {
        Some(rest) => rest,
        None => match crate::text::strip_prefix_chars(&cs, &http) {
            Some(rest) => rest,
            None => return Err("HTML report URL must use http:// or https://".to_owned()),
        },
    };
    let authority = authority_chars(&rest);
    if authority.len() == 0 || crate::text::contains_char(&authority, '@') || any_unsafe_url_char(&cs) {
        return Err("HTML report URL contains unsafe characters or components".to_owned());
    }
    Ok(())
}

// ---------------------------------------------------------------------------
// Line ranges.
// ---------------------------------------------------------------------------

pub open spec fn sat_inc(n: u32) -> u32 {
    if n == u32::MAX {
        n
    } else {
        (n + 1) as u32
    }
}

/// Runs of consecutive line numbers, in order.
pub open spec fn ranges_of(s: Seq<u32>) -> Seq<(u32, u32)>
    decreases s.len(),
{
    if s.len() == 0 {
        seq![]
    } else {
        let r = ranges_of(s.drop_last());
        let line = s.last();
        if r.len() > 0 && line == sat_inc(r.last().1) {
            r.update(r.len() - 1, (r.last().0, line))
        } else {
            r.push((line, line))
        }
    }
}

/// Runs of consecutive line numbers, in order.
pub fn line_number_ranges(lines: &[u32]) -> (r: Vec<(u32, u32)>)
    ensures
        r@ == ranges_of(lines@),
{
    let mut r: Vec<(u32, u32)> = Vec::new();
    let mut i: usize = 0;
    while i < lines.len()
        invariant
            i <= lines@.len(),
            r@ == ranges_of(lines@.take(i as int)),
        decreases lines@.len() - i,
    {
        assert(lines@.take(i + 1).drop_last() =~= lines@.take(i as int));
        let line = lines[i];
        let n = r.len();
        if n > 0 && line == r[n - 1].1.saturating_add(1) {
            let start = r[n - 1].0;
            r.set(n - 1, (start, line));
        } else {
            r.push((line, line));
        }
        i += 1;
    }
    assert(lines@.take(i as int) =~= lines@);
    r
}

/// `L5` or `L5-L7`.
pub open spec fn range_text(r: (u32, u32)) -> Seq<char> {
    if r.0 == r.1 {
        "L"@ + dec(r.0 as nat)
    } else {
        "L"@ + dec(r.0 as nat) + "-L"@ + dec(r.1 as nat)
    }
}

pub fn fmt_range(start: u32, end: u32) -> (r: String)
    ensures
        r@ == range_text((start, end)),
{
    let mut out: Vec<char> = Vec::new();
    push_str(&mut out, "L");
    push_dec(&mut out, start as u64);
    if start != end {
        push_str(&mut out, "-L");
        push_dec(&mut out, end as u64);
    }
    crate::text::string_of(&out)
}

/// The texts of the ranges of `lines`.
pub fn line_ranges(lines: &[u32]) -> (r: Vec<String>)
    ensures
        r@.len() == ranges_of(lines@).len(),
        forall|i: int| 0 <= i < r@.len() ==> (#[trigger] r@[i])@ == range_text(ranges_of(lines@)[i]),
{
    let ranges = line_number_ranges(lines);
    let mut out: Vec<String> = Vec::new();
    let mut i: usize = 0;
    while i < ranges.len()
        invariant
            i <= ranges@.len(),
            ranges@ == ranges_of(lines@),
            out@.len() == i,
            forall|j: int| 0 <= j < i ==> (#[trigger] out@[j])@ == range_text(ranges@[j]),
        decreases ranges@.len() - i,
    {
        out.push(fmt_range(ranges[i].0, ranges[i].1));
        i += 1;
    }
    out
}

// ---------------------------------------------------------------------------
// Text pieces.
// ---------------------------------------------------------------------------

/// A path inside `<code>`, ASCII punctuation other than `/ . - ` and space
/// written as hexadecimal character references so Markdown leaves it alone.
pub open spec fn code_path_chars(s: Seq<char>) -> Seq<char>
    decreases s.len(),
{
    if s.len() == 0 {
        seq![]
    } else {
        let c = s.last();
        code_path_chars(s.drop_last()) + if is_alnum(c) || c == '/' || c == '.' || c == '-' || c
            == ' ' {
            seq![c]
        } else if is_ascii(c) {
            "&#x"@ + hex_upper((c as u32) as nat) + ";"@
        } else {
            seq![c]
        }
    }
}

pub open spec fn markdown_code_path_text(path: Seq<char>) -> Seq<char> {
    "<code>"@ + code_path_chars(path) + "</code>"@
}

pub fn markdown_code_path(path: &str) -> (r: String)
    ensures
        r@ == markdown_code_path_text(path@),
{
    let cs = chars_of(path);
    let mut out: Vec<char> = Vec::new();
    push_str(&mut out, "<code>");
    let ghost start = out@;
    let mut i: usize = 0;
    while i < cs.len()
        invariant
            i <= cs@.len(),
            out@ == start + code_path_chars(cs@.take(i as int)),
        decreases cs@.len() - i,
    {
        assert(cs@.take(i + 1).drop_last() =~= cs@.take(i as int));
        let c = cs[i];
        if crate::text::char_is_alnum(c) || c == '/' || c == '.' || c == '-' || c == ' ' {
            out.push(c);
        } else if c <= '\u{7f}' {
            push_str(&mut out, "&#x");
            crate::text::push_hex(&mut out, c as u32);
            push_str(&mut out, ";");
        } else {
            out.push(c);
        }
        i += 1;
        assert(out@ =~= start + code_path_chars(cs@.take(i as int)));
    }
    assert(cs@.take(i as int) =~= cs@);
    push_str(&mut out, "</code>");
    crate::text::string_of(&out)
}

pub open spec fn html_link_text(url: Seq<char>, label: Seq<char>) -> Seq<char> {
    "<a href=\""@ + html_escaped(url) + "\">"@ + label + "</a>"@
}

pub fn html_link(url: &str, label: &str) -> (r: String)
    ensures
        r@ == html_link_text(url@, label@),
{
    let mut out: Vec<char> = Vec::new();
    push_str(&mut out, "<a href=\"");
    crate::github_storage::push_html_escaped(&mut out, &chars_of(url));
    push_str(&mut out, "\">");
    push_str(&mut out, label);
    push_str(&mut out, "</a>");
    crate::text::string_of(&out)
}

/// At most the first seven characters.
pub open spec fn short_sha_text(sha: Seq<char>) -> Seq<char> {
    if sha.len() <= 7 {
        sha
    } else {
        sha.take(7)
    }
}

pub fn short_sha(sha: &str) -> (r: String)
    ensures
        r@ == short_sha_text(sha@),
{
    let cs = chars_of(sha);
    let n = if cs.len() <= 7 {
        cs.len()
    } else {
        7
    };
    let r = crate::text::slice_of(&cs, 0, n);
    assert(r@ =~= short_sha_text(sha@));
    crate::text::string_of(&r)
}

/// Equal up to ASCII case.
pub fn same_commit_sha(left: &str, right: &str) -> (r: bool)
    ensures
        r == (ascii_lower(left@) == ascii_lower(right@)),
{
    let l = chars_of(left);
    let rc = chars_of(right);
    if l.len() != rc.len() {
        assert(ascii_lower(left@).len() != ascii_lower(right@).len());
        return false;
    }
    let mut i: usize = 0;
    while i < l.len()
        invariant
            i <= l@.len(),
            l@.len() == rc@.len(),
            l@ == left@,
            rc@ == right@,
            forall|j: int| 0 <= j < i ==> ascii_lower(l@)[j] == ascii_lower(rc@)[j],
        decreases l@.len() - i,
    {
        let a = l[i];
        let b = rc[i];
        let la = if 'A' <= a && a <= 'Z' {
            ((a as u8) + 32) as char
        } else {
            a
        };
        let lb = if 'A' <= b && b <= 'Z' {
            ((b as u8) + 32) as char
        } else {
            b
        };
        assert(ascii_lower(l@)[i as int] == la);
        assert(ascii_lower(rc@)[i as int] == lb);
        if la != lb {
            return false;
        }
        i += 1;
    }
    assert(ascii_lower(l@) =~= ascii_lower(rc@));
    true
}

/// `<!-- badgers-report:{repo}:{pr} -->`, once a given head SHA is 40 hex digits.
pub fn comment_marker(args: &GithubArgs) -> (r: Result<String, String>)
    ensures
        r is Ok <==> (args.head_sha matches Some(s) ==> valid_sha(s@)),
        r matches Ok(m) ==> m@ == "<!-- badgers-report:"@ + args.repo@ + ":"@ + dec(args.pr as nat)
            + " -->"@,
        r matches Err(m) ==> m@ == "--head-sha must be exactly 40 ASCII hexadecimal characters"@,
{
    match &args.head_sha {
        Some(sha) => {
            if crate::github_storage::validate_sha(sha.as_str()).is_err() {
                return Err("--head-sha must be exactly 40 ASCII hexadecimal characters".to_owned());
            }
        },
        None => {},
    }
    let mut out: Vec<char> = Vec::new();
    push_str(&mut out, "<!-- badgers-report:");
    push_str(&mut out, args.repo.as_str());
    push_str(&mut out, ":");
    push_dec(&mut out, args.pr);
    push_str(&mut out, " -->");
    Ok(crate::text::string_of(&out))
}

// ---------------------------------------------------------------------------
// The comment.
// ---------------------------------------------------------------------------

/// The head and base line percentages' difference, when the base is
/// available and both sides have executable lines.
pub open spec fn comparison_delta(comp: Comparison) -> Option<(nat, nat, nat, nat)> {
    let h = counts_total(head_side(comp.files@));
    let b = counts_total(base_side(comp.files@));
    if comp.base_available && h.1 > 0 && b.1 > 0 {
        Some((h.0 as nat, h.1 as nat, b.0 as nat, b.1 as nat))
    } else {
        None
    }
}

/// `🟢 +x.xx%p`, `🔴 -x.xx%p`, `➖ ±0.00%p` within half a hundredth, `n/a`.
pub open spec fn delta_cell_text(comp: Comparison) -> Seq<char> {
    match comparison_delta(comp) {
        Some((hc, ht, bc, bt)) => {
            let n = crate::pct::delta_scaled(hc, ht, bc, bt);
            let den = ht * bt;
            let h = crate::pct::round_half_even(
                if n < 0 {
                    -n
                } else {
                    n
                },
                den as int,
            );
            if 2 * n >= den {
                "🟢 +"@ + fixed2(h as nat) + "%p"@
            } else if 2 * n <= -den {
                "🔴 -"@ + fixed2(h as nat) + "%p"@
            } else {
                "➖ ±0.00%p"@
            }
        },
        None => if comp.base_available {
            "n/a"@
        } else {
            "n/a (no baseline)"@
        },
    }
}

/// The limits under which the totals of a comparison do not overflow.
pub open spec fn totals_fit(comp: Comparison) -> bool {
    &&& counts_total(head_side(comp.files@)).0 <= u64::MAX
    &&& counts_total(head_side(comp.files@)).1 <= u64::MAX
    &&& counts_total(base_side(comp.files@)).0 <= u64::MAX
    &&& counts_total(base_side(comp.files@)).1 <= u64::MAX
    &&& diff_total(comp.files@).0 <= u32::MAX
    &&& diff_total(comp.files@).1 <= u32::MAX
}

fn delta_cell(comp: &Comparison) -> (r: Vec<char>)
    requires
        totals_fit(*comp),
    ensures
        r@ == delta_cell_text(*comp),
{
    let head = comp.head_totals();
    let base = comp.base_totals();
    if comp.base_available && head.executable > 0 && base.executable > 0 {
        let d: Delta = crate::pct::percent_delta(head.covered, head.executable, base.covered, base.executable);
        let mut out: Vec<char> = Vec::new();
        if d.rises {
            push_str(&mut out, "🟢 +");
            crate::pct::push_fixed2(&mut out, d.hundredths);
            push_str(&mut out, "%p");
        } else if d.falls {
            push_str(&mut out, "🔴 -");
            crate::pct::push_fixed2(&mut out, d.hundredths);
            push_str(&mut out, "%p");
        } else {
            push_str(&mut out, "➖ ±0.00%p");
        }
        out
    } else if comp.base_available {
        chars_of("n/a")
    } else {
        chars_of("n/a (no baseline)")
    }
}

/// Files with uncovered changed lines, in order.
pub open spec fn uncovered_files(files: Seq<FileDelta>) -> Seq<FileDelta>
    decreases files.len(),
{
    if files.len() == 0 {
        seq![]
    } else if files.last().diff.uncovered_lines@.len() > 0 {
        uncovered_files(files.drop_last()).push(files.last())
    } else {
        uncovered_files(files.drop_last())
    }
}

/// Total uncovered changed lines.
pub open spec fn uncovered_total(files: Seq<FileDelta>) -> int
    decreases files.len(),
{
    if files.len() == 0 {
        0
    } else {
        uncovered_total(files.drop_last()) + files.last().diff.uncovered_lines@.len()
    }
}

/// At most ten ranges per file are listed.
pub const MAX_RANGES_PER_FILE: usize = 10;

/// One file's entry: its path and first ranges, and how many more there are.
pub open spec fn uncovered_entry(f: FileDelta) -> Seq<char> {
    let ranges = ranges_of(f.diff.uncovered_lines@);
    let shown = ranges.take(if ranges.len() > 10 { 10 } else { ranges.len() as int });
    "- "@ + markdown_code_path_text(f.path@) + ": "@ + join(
        shown.map_values(|r: (u32, u32)| range_text(r)),
        ", "@,
    ) + (if ranges.len() > 10 {
        " … and "@ + dec((ranges.len() - 10) as nat) + " more"@
    } else {
        seq![]
    }) + "\n"@
}

pub open spec fn uncovered_entries(files: Seq<FileDelta>) -> Seq<char>
    decreases files.len(),
{
    if files.len() == 0 {
        seq![]
    } else {
        uncovered_entries(files.drop_last()) + uncovered_entry(files.last())
    }
}

/// The collapsible list of uncovered changed lines; empty when there are none.
pub open spec fn uncovered_section(comp: Comparison) -> Seq<char> {
    let files = uncovered_files(comp.files@);
    if files.len() == 0 {
        seq![]
    } else {
        "\n"@ + "<details><summary>Uncovered changed lines ("@ + dec(uncovered_total(files) as nat)
            + ")</summary>\n"@ + "\n"@ + uncovered_entries(files) + "</details>\n"@
    }
}

fn push_uncovered_entry(out: &mut Vec<char>, f: &FileDelta)
    ensures
        final(out)@ == old(out)@ + uncovered_entry(*f),
{
    push_str(out, "- ");
    push_str(out, markdown_code_path(f.path.as_str()).as_str());
    push_str(out, ": ");
    let ranges = line_ranges(f.diff.uncovered_lines.as_slice());
    let ghost rs = ranges_of(f.diff.uncovered_lines@);
    let shown_n = if ranges.len() > 10 {
        10
    } else {
        ranges.len()
    };
    let ghost shown = rs.take(shown_n as int).map_values(|r: (u32, u32)| range_text(r));
    let ghost start = out@;
    let mut i: usize = 0;
    while i < shown_n
        invariant
            i <= shown_n <= ranges@.len(),
            shown_n == (if ranges@.len() > 10 { 10 } else { ranges@.len() }),
            ranges@.len() == rs.len(),
            forall|j: int| 0 <= j < ranges@.len() ==> (#[trigger] ranges@[j])@ == range_text(rs[j]),
            shown == rs.take(shown_n as int).map_values(|r: (u32, u32)| range_text(r)),
            out@ == start + join(shown.take(i as int), ", "@),
        decreases shown_n - i,
    {
        proof {
            crate::text::lemma_join_push(shown.take(i as int), ", "@, shown[i as int]);
            assert(shown.take(i as int).push(shown[i as int]) =~= shown.take(i + 1));
        }
        if i > 0 {
            push_str(out, ", ");
        }
        push_str(out, ranges[i].as_str());
        i += 1;
    }
    assert(shown.take(i as int) =~= shown);
    if ranges.len() > 10 {
        push_str(out, " … and ");
        push_dec(out, (ranges.len() - 10) as u64);
        push_str(out, " more");
    }
    push_str(out, "\n");
}

fn push_uncovered_section(out: &mut Vec<char>, comp: &Comparison)
    requires
        uncovered_total(comp.files@) <= usize::MAX,
    ensures
        final(out)@ == old(out)@ + uncovered_section(*comp),
{
    let ghost files = uncovered_files(comp.files@);
    let mut total: usize = 0;
    let mut any = false;
    let mut entries: Vec<char> = Vec::new();
    let mut i: usize = 0;
    while i < comp.files.len()
        invariant
            i <= comp.files@.len(),
            uncovered_total(comp.files@) <= usize::MAX,
            any == (uncovered_files(comp.files@.take(i as int)).len() > 0),
            total == uncovered_total(uncovered_files(comp.files@.take(i as int))),
            entries@ == uncovered_entries(uncovered_files(comp.files@.take(i as int))),
        decreases comp.files@.len() - i,
    {
        let ghost pre = comp.files@.take(i as int);
        assert(comp.files@.take(i + 1).drop_last() =~= pre);
        assert(comp.files@.take(i + 1).last() == comp.files@[i as int]);
        proof {
            lemma_uncovered_total_bound(comp.files@, i + 1);
        }
        let f = &comp.files[i];
        if f.diff.uncovered_lines.len() > 0 {
            let ghost fs = uncovered_files(pre);
            assert(uncovered_files(pre).push(*f).drop_last() =~= fs);
            total = total + f.diff.uncovered_lines.len();
            any = true;
            push_uncovered_entry(&mut entries, f);
        }
        i += 1;
    }
    assert(comp.files@.take(i as int) =~= comp.files@);
    if any {
        push_str(out, "\n");
        push_str(out, "<details><summary>Uncovered changed lines (");
        push_dec(out, total as u64);
        push_str(out, ")</summary>\n");
        push_str(out, "\n");
        push_chars(out, &entries);
        push_str(out, "</details>\n");
    }
}

proof fn lemma_uncovered_files_total(files: Seq<FileDelta>)
    ensures
        uncovered_total(uncovered_files(files)) == uncovered_total(files),
    decreases files.len(),
{
    if files.len() > 0 {
        lemma_uncovered_files_total(files.drop_last());
        if files.last().diff.uncovered_lines@.len() > 0 {
            assert(uncovered_files(files.drop_last()).push(files.last()).drop_last()
                =~= uncovered_files(files.drop_last()));
        }
    }
}

proof fn lemma_uncovered_total_bound(files: Seq<FileDelta>, k: int)
    requires
        0 <= k <= files.len(),
    ensures
        uncovered_total(uncovered_files(files.take(k))) <= uncovered_total(files),
    decreases files.len(),
{
    lemma_uncovered_files_total(files.take(k));
    lemma_uncovered_total_prefix(files, k);
}

proof fn lemma_uncovered_total_prefix(files: Seq<FileDelta>, k: int)
    requires
        0 <= k <= files.len(),
    ensures
        uncovered_total(files.take(k)) <= uncovered_total(files),
    decreases files.len(),
{
    if k < files.len() {
        assert(files.drop_last().take(k) =~= files.take(k));
        lemma_uncovered_total_prefix(files.drop_last(), k);
    } else {
        assert(files.take(k) =~= files);
    }
}

/// `**Baseline**: ...` and, with a head SHA, `**Head**: `sha``.
pub open spec fn context_line_text(args: GithubArgs) -> Seq<char> {
    (match args.baseline_label {
        Some(label) => "**Baseline**: "@ + label@,
        None => "**Baseline**: none"@,
    }) + match args.head_sha {
        Some(sha) => " · "@ + "**Head**: `"@ + short_sha_text(sha@) + "`"@,
        None => seq![],
    }
}

pub open spec fn url_link(url: Option<String>, ok: spec_fn(Seq<char>) -> bool, label: Seq<char>) -> Seq<Seq<char>> {
    match url {
        Some(u) => if ok(u@) {
            seq![html_link_text(u@, label)]
        } else {
            seq![]
        },
        None => seq![],
    }
}

/// The report links that pass their checks, in order.
pub open spec fn report_links(args: GithubArgs) -> Seq<Seq<char>> {
    url_link(
        args.markdown_report_url,
        |u: Seq<char>| navigation_url_error(u, "Markdown report URL"@) is None,
        "Detailed coverage report"@,
    ) + url_link(
        args.files_changed_url,
        |u: Seq<char>| navigation_url_error(u, "Files changed URL"@) is None,
        "Files changed annotations"@,
    ) + url_link(args.report_url, |u: Seq<char>| report_url_error(u) is None, "HTML report"@)
}

pub open spec fn links_section(args: GithubArgs) -> Seq<char> {
    let links = report_links(args);
    if links.len() == 0 {
        seq![]
    } else {
        "\n"@ + "**Reports:** "@ + join(links, " · "@) + "\n"@
    }
}

/// Where the durable report is stored, when a storage repository is given
/// and the location is valid.
pub open spec fn stored_location_valid(args: GithubArgs) -> bool {
    args.storage_repo matches Some(storage) && valid_repo_slug(args.repo@) && valid_repo_slug(
        storage@,
    ) && safe_branch(args.storage_branch@) && normalized_prefix(args.storage_prefix@) is Some
}

/// The location `args` name, as `GithubReportLocation::new` builds it.
pub open spec fn location_of(args: GithubArgs, loc: GithubReportLocation) -> bool {
    &&& args.storage_repo matches Some(storage) && loc.storage_repo@ == storage@
    &&& loc.source_repo@ == args.repo@
    &&& loc.storage_branch@ == args.storage_branch@
    &&& Some(loc.storage_prefix@) == normalized_prefix(args.storage_prefix@)
}

pub open spec fn stored_section(args: GithubArgs, loc: GithubReportLocation) -> Seq<char> {
    match args.head_sha {
        Some(sha) => "\n"@ + "<details><summary>View stored HTML locally</summary>\n"@ + "\n"@
            + "**Stored report:** <code>"@ + html_escaped(
            loc.storage_repo@ + "@"@ + loc.storage_branch@ + ":"@ + loc.keys_root() + "/commits/"@
                + sha@ + "/html"@ + "/index.html"@,
        ) + "</code>\n"@ + "\n"@ + "<pre><code>"@ + html_escaped(
            loc.view_command_text(args.pr, "badgers"@),
        ) + "</code></pre>\n"@ + "</details>\n"@,
        None => seq![],
    }
}

/// The comment up to the uncovered-lines section.
pub open spec fn comment_head(marker: Seq<char>, comp: Comparison, args: GithubArgs) -> Seq<char> {
    marker + "\n"@ + "## 🦡 Badgers Coverage Report\n"@ + "\n"@ + "| | Coverage | Δ |\n"@
        + "|---|---|---|\n"@ + total_row(comp) + diff_row(comp) + "\n"@ + context_line_text(args)
        + "\n"@
}

pub open spec fn total_row(comp: Comparison) -> Seq<char> {
    let h = counts_total(head_side(comp.files@));
    "| **Total** | "@ + pct_text(h.0 as nat, h.1 as nat) + " ("@ + dec(h.0 as nat) + "/"@ + dec(
        h.1 as nat,
    ) + ") | "@ + delta_cell_text(comp) + " |\n"@
}

pub open spec fn diff_row(comp: Comparison) -> Seq<char> {
    let d = diff_total(comp.files@);
    "| **Diff** | "@ + (if d.0 == 0 {
        "no measurable changed lines"@
    } else {
        pct_text(d.1 as nat, d.0 as nat) + " ("@ + dec(d.1 as nat) + "/"@ + dec(d.0 as nat) + ")"@
    }) + " | |\n"@
}

fn push_total_row(out: &mut Vec<char>, comp: &Comparison)
    requires
        totals_fit(*comp),
    ensures
        final(out)@ == old(out)@ + total_row(*comp),
{
    let ghost start = out@;
    let head = comp.head_totals();
    push_str(out, "| **Total** | ");
    crate::pct::push_pct(out, head.covered, head.executable);
    push_str(out, " (");
    push_dec(out, head.covered);
    push_str(out, "/");
    push_dec(out, head.executable);
    push_str(out, ") | ");
    let cell = delta_cell(comp);
    push_chars(out, &cell);
    push_str(out, " |\n");
    assert(out@ =~= start + total_row(*comp));
}

fn push_diff_row(out: &mut Vec<char>, comp: &Comparison)
    requires
        totals_fit(*comp),
    ensures
        final(out)@ == old(out)@ + diff_row(*comp),
{
    let ghost start = out@;
    let diff = comp.diff_totals();
    push_str(out, "| **Diff** | ");
    if diff.relevant == 0 {
        push_str(out, "no measurable changed lines");
    } else {
        crate::pct::push_pct(out, diff.covered as u64, diff.relevant as u64);
        push_str(out, " (");
        push_dec(out, diff.covered as u64);
        push_str(out, "/");
        push_dec(out, diff.relevant as u64);
        push_str(out, ")");
    }
    push_str(out, " | |\n");
    assert(out@ =~= start + diff_row(*comp));
}

fn push_context_line(out: &mut Vec<char>, args: &GithubArgs)
    ensures
        final(out)@ == old(out)@ + context_line_text(*args),
{
    let ghost start = out@;
    match &args.baseline_label {
        Some(label) => {
            push_str(out, "**Baseline**: ");
            push_str(out, label.as_str());
        },
        None => {
            push_str(out, "**Baseline**: none");
        },
    }
    match &args.head_sha {
        Some(sha) => {
            push_str(out, " · ");
            push_str(out, "**Head**: `");
            push_str(out, short_sha(sha.as_str()).as_str());
            push_str(out, "`");
        },
        None => {},
    }
    assert(out@ =~= start + context_line_text(*args));
}

fn push_head(out: &mut Vec<char>, marker: &str, comp: &Comparison, args: &GithubArgs)
    requires
        totals_fit(*comp),
    ensures
        final(out)@ == old(out)@ + comment_head(marker@, *comp, *args),
{
    let ghost start = out@;
    push_str(out, marker);
    push_str(out, "\n");
    push_str(out, "## 🦡 Badgers Coverage Report\n");
    push_str(out, "\n");
    push_str(out, "| | Coverage | Δ |\n");
    push_str(out, "|---|---|---|\n");
    push_total_row(out, comp);
    push_diff_row(out, comp);
    push_str(out, "\n");
    push_context_line(out, args);
    push_str(out, "\n");
    assert(out@ =~= start + comment_head(marker@, *comp, *args));
}

fn push_links(out: &mut Vec<char>, args: &GithubArgs)
    ensures
        final(out)@ == old(out)@ + links_section(*args),
{
    let mut links: Vec<String> = Vec::new();
    let ghost l0 = links@.map_values(|s: String| s@);
    assert(l0 =~= seq![]);
    match &args.markdown_report_url {
        Some(url) => {
            if validate_navigation_url(Some(url.as_str()), "Markdown report URL").is_ok() {
                links.push(html_link(url.as_str(), "Detailed coverage report"));
            }
        },
        None => {},
    }
    match &args.files_changed_url {
        Some(url) => {
            if validate_navigation_url(Some(url.as_str()), "Files changed URL").is_ok() {
                links.push(html_link(url.as_str(), "Files changed annotations"));
            }
        },
        None => {},
    }
    match &args.report_url {
        Some(url) => {
            if validate_report_url(Some(url.as_str())).is_ok() {
                links.push(html_link(url.as_str(), "HTML report"));
            }
        },
        None => {},
    }
    let ghost lv = links@.map_values(|s: String| s@);
    assert(lv =~= report_links(*args));
    if links.len() > 0 {
        push_str(out, "\n");
        push_str(out, "**Reports:** ");
        let ghost start = out@;
        let mut i: usize = 0;
        while i < links.len()
            invariant
                i <= links@.len(),
                lv == links@.map_values(|s: String| s@),
                out@ == start + join(lv.take(i as int), " · "@),
            decreases links@.len() - i,
        {
            proof {
                crate::text::lemma_join_push(lv.take(i as int), " · "@, lv[i as int]);
                assert(lv.take(i as int).push(lv[i as int]) =~= lv.take(i + 1));
            }
            if i > 0 {
                push_str(out, " · ");
            }
            push_str(out, links[i].as_str());
            i += 1;
        }
        assert(lv.take(i as int) =~= lv);
        push_str(out, "\n");
    }
}

/// The durable report's location, when a storage repository is given.
pub fn stored_report_location(args: &GithubArgs) -> (r: Result<Option<GithubReportLocation>, String>)
    ensures
        args.storage_repo is None ==> r == Ok::<Option<GithubReportLocation>, String>(None),
        args.storage_repo is Some ==> (r is Ok <==> stored_location_valid(*args)),
        r matches Ok(Some(loc)) ==> location_of(*args, loc),
        r matches Ok(None) ==> args.storage_repo is None,
{
    match &args.storage_repo {
        Some(storage) => match GithubReportLocation::new(
            args.repo.as_str(),
            storage.as_str(),
            args.storage_branch.as_str(),
            args.storage_prefix.as_str(),
        ) {
            Ok(loc) => Ok(Some(loc)),
            Err(e) => Err(e),
        },
        None => Ok(None),
    }
}

fn push_stored(out: &mut Vec<char>, args: &GithubArgs, loc: &GithubReportLocation)
    requires
        args.head_sha matches Some(sha) ==> valid_sha(sha@),
    ensures
        final(out)@ == old(out)@ + stored_section(*args, *loc),
{
    match &args.head_sha {
        Some(sha) => {
            let spec = match loc.report_spec(sha.as_str()) {
                Ok(s) => s,
                Err(_) => {
                    assert(false);
                    return;
                },
            };
            let command = loc.view_command(args.pr);
            push_str(out, "\n");
            push_str(out, "<details><summary>View stored HTML locally</summary>\n");
            push_str(out, "\n");
            push_str(out, "**Stored report:** <code>");
            crate::github_storage::push_html_escaped(out, &chars_of(spec.as_str()));
            push_str(out, "</code>\n");
            push_str(out, "\n");
            push_str(out, "<pre><code>");
            crate::github_storage::push_html_escaped(out, &chars_of(command.as_str()));
            push_str(out, "</code></pre>\n");
            push_str(out, "</details>\n");
        },
        None => {},
    }
}

/// The whole pull-request comment.
pub open spec fn comment_text(
    marker: Seq<char>,
    comp: Comparison,
    args: GithubArgs,
    loc: Option<GithubReportLocation>,
) -> Seq<char> {
    comment_head(marker, comp, args) + uncovered_section(comp) + links_section(args) + match loc {
        Some(l) => stored_section(args, l),
        None => seq![],
    }
}

/// The pull-request comment: totals and their delta, diff coverage, the
/// baseline and head, uncovered changed lines, report links and, with a
/// durable location, where the stored report is and how to open it.
pub fn render_comment(marker: &str, comparison: &Comparison, args: &GithubArgs) -> (r: String)
    requires
        totals_fit(*comparison),
        uncovered_total(comparison.files@) <= usize::MAX,
        stored_location_valid(*args) ==> (args.head_sha matches Some(sha) ==> valid_sha(sha@)),
    ensures
        exists|loc: Option<GithubReportLocation>|
            (match loc {
                Some(l) => stored_location_valid(*args) && location_of(*args, l),
                None => !stored_location_valid(*args),
            }) && r@ == #[trigger] comment_text(marker@, *comparison, *args, loc),
{
    let mut out: Vec<char> = Vec::new();
    push_head(&mut out, marker, comparison, args);
    push_uncovered_section(&mut out, comparison);
    push_links(&mut out, args);
    let location = match stored_report_location(args) {
        Ok(loc) => loc,
        Err(_) => None,
    };
    match &location {
        Some(loc) => {
            push_stored(&mut out, args, loc);
        },
        None => {},
    }
    let r = crate::text::string_of(&out);
    proof {
        match location {
            Some(l) => {
                assert(stored_location_valid(*args));
                assert(location_of(*args, l));
            },
            None => {
                assert(!stored_location_valid(*args));
            },
        }
    }
    assert(r@ == comment_text(marker@, *comparison, *args, location));
    r
}

// ---------------------------------------------------------------------------
// Check annotations.
// ---------------------------------------------------------------------------

/// At most this many annotations are published.
pub const MAX_CHECK_ANNOTATIONS: usize = 1000;

/// The annotated path: the file's path under the trimmed prefix.
pub open spec fn annotated_path(prefix: Seq<char>, path: Seq<char>) -> Seq<char> {
    let p = crate::storage::trim_slashes(prefix);
    if p.len() == 0 {
        path
    } else {
        p + "/"@ + path
    }
}

/// (path, start, end) of every uncovered range, file by file.
pub open spec fn annotation_ranges(files: Seq<FileDelta>, prefix: Seq<char>) -> Seq<(Seq<char>, u32, u32)>
    decreases files.len(),
{
    if files.len() == 0 {
        seq![]
    } else {
        let f = files.last();
        annotation_ranges(files.drop_last(), prefix) + ranges_of(f.diff.uncovered_lines@).map_values(
            |r: (u32, u32)| (annotated_path(prefix, f.path@), r.0, r.1),
        )
    }
}

proof fn lemma_ranges_len(s: Seq<u32>)
    ensures
        ranges_of(s).len() <= s.len(),
    decreases s.len(),
{
    if s.len() > 0 {
        lemma_ranges_len(s.drop_last());
    }
}

proof fn lemma_annotation_count(files: Seq<FileDelta>, prefix: Seq<char>)
    ensures
        annotation_ranges(files, prefix).len() <= uncovered_total(files),
    decreases files.len(),
{
    if files.len() > 0 {
        lemma_annotation_count(files.drop_last(), prefix);
        lemma_ranges_len(files.last().diff.uncovered_lines@);
    }
}

/// Warnings for the first ranges, and how many ranges there are in all.
pub fn build_annotations(comparison: &Comparison, path_prefix: &str) -> (r: (Vec<CheckAnnotation>, usize))
    requires
        uncovered_total(comparison.files@) <= usize::MAX,
    ensures
        r.1 == annotation_ranges(comparison.files@, path_prefix@).len(),
        r.0@.len() == (if r.1 > MAX_CHECK_ANNOTATIONS {
            MAX_CHECK_ANNOTATIONS
        } else {
            r.1
        }),
        forall|i: int|
            0 <= i < r.0@.len() ==> {
                let a = annotation_ranges(comparison.files@, path_prefix@)[i];
                &&& (#[trigger] r.0@[i]).path@ == a.0
                &&& r.0@[i].start_line == a.1
                &&& r.0@[i].end_line == a.2
                &&& r.0@[i].annotation_level@ == "warning"@
                &&& r.0@[i].message@ == "Changed executable "@ + crate::github::lines_phrase(
                    a.1,
                    a.2,
                ) + " are not covered."@
                &&& r.0@[i].title@ == "Uncovered changed lines"@
            },
{
    let prefix = crate::storage::trim_slash_chars_pub(&chars_of(path_prefix));
    let ghost all = annotation_ranges(comparison.files@, path_prefix@);
    let mut out: Vec<CheckAnnotation> = Vec::new();
    let mut total: usize = 0;
    let mut i: usize = 0;
    while i < comparison.files.len()
        invariant
            i <= comparison.files@.len(),
            uncovered_total(comparison.files@) <= usize::MAX,
            prefix@ == crate::storage::trim_slashes(path_prefix@),
            total == annotation_ranges(comparison.files@.take(i as int), path_prefix@).len(),
            out@.len() == (if total > MAX_CHECK_ANNOTATIONS {
                MAX_CHECK_ANNOTATIONS
            } else {
                total
            }),
            forall|k: int|
                0 <= k < out@.len() ==> {
                    let a = annotation_ranges(comparison.files@.take(i as int), path_prefix@)[k];
                    &&& (#[trigger] out@[k]).path@ == a.0
                    &&& out@[k].start_line == a.1
                    &&& out@[k].end_line == a.2
                    &&& out@[k].annotation_level@ == "warning"@
                    &&& out@[k].message@ == "Changed executable "@ + crate::github::lines_phrase(
                        a.1,
                        a.2,
                    ) + " are not covered."@
                    &&& out@[k].title@ == "Uncovered changed lines"@
                },
        decreases comparison.files@.len() - i,
    {
        let f = &comparison.files[i];
        let ghost pre = annotation_ranges(comparison.files@.take(i as int), path_prefix@);
        assert(comparison.files@.take(i + 1).drop_last() =~= comparison.files@.take(i as int));
        assert(comparison.files@.take(i + 1).last() == *f);
        let mut path_chars: Vec<char> = Vec::new();
        if prefix.len() > 0 {
            push_chars(&mut path_chars, &prefix);
            push_str(&mut path_chars, "/");
        }
        push_str(&mut path_chars, f.path.as_str());
        assert(path_chars@ == annotated_path(path_prefix@, f.path@));
        let ranges = line_number_ranges(f.diff.uncovered_lines.as_slice());
        let ghost added = ranges@.map_values(
            |r: (u32, u32)| (annotated_path(path_prefix@, f.path@), r.0, r.1),
        );
        let mut j: usize = 0;
        while j < ranges.len()
            invariant
                j <= ranges@.len(),
                i < comparison.files@.len(),
                *f == comparison.files@[i as int],
                uncovered_total(comparison.files@) <= usize::MAX,
                ranges@ == ranges_of(f.diff.uncovered_lines@),
                pre == annotation_ranges(comparison.files@.take(i as int), path_prefix@),
                comparison.files@.take(i + 1).drop_last() == comparison.files@.take(i as int),
                comparison.files@.take(i + 1).last() == *f,
                path_chars@ == annotated_path(path_prefix@, f.path@),
                added == ranges@.map_values(
                    |r: (u32, u32)| (annotated_path(path_prefix@, f.path@), r.0, r.1),
                ),
                total == pre.len() + j,
                total <= usize::MAX,
                out@.len() == (if total > MAX_CHECK_ANNOTATIONS {
                    MAX_CHECK_ANNOTATIONS
                } else {
                    total
                }),
                forall|k: int|
                    0 <= k < out@.len() ==> {
                        let a = (pre + added)[k];
                        &&& (#[trigger] out@[k]).path@ == a.0
                        &&& out@[k].start_line == a.1
                        &&& out@[k].end_line == a.2
                        &&& out@[k].annotation_level@ == "warning"@
                        &&& out@[k].message@ == "Changed executable "@
                            + crate::github::lines_phrase(a.1, a.2) + " are not covered."@
                        &&& out@[k].title@ == "Uncovered changed lines"@
                    },
            decreases ranges@.len() - j,
        {
            if out.len() < MAX_CHECK_ANNOTATIONS {
                let a = CheckAnnotation::warning(
                    crate::text::string_of(&path_chars),
                    ranges[j].0,
                    ranges[j].1,
                );
                out.push(a);
            }
            proof {
                lemma_ranges_len(f.diff.uncovered_lines@);
                lemma_annotation_count(comparison.files@.take(i as int), path_prefix@);
                lemma_uncovered_total_prefix(comparison.files@, i + 1);
                assert(uncovered_total(comparison.files@.take(i + 1)) == uncovered_total(
                    comparison.files@.take(i as int),
                ) + f.diff.uncovered_lines@.len());
            }
            total = total + 1;
            j += 1;
        }
        assert(annotation_ranges(comparison.files@.take(i + 1), path_prefix@) =~= pre + added);
        i += 1;
    }
    assert(comparison.files@.take(i as int) =~= comparison.files@);
    (out, total)
}

/// The marker prefix of comments written before the marker ended where it
/// does now: `<!-- badgers-report:{repo}:{pr}:`.
pub fn legacy_marker_prefix(args: &GithubArgs) -> (r: String)
    ensures
        r@ == "<!-- badgers-report:"@ + args.repo@ + ":"@ + dec(args.pr as nat) + ":"@,
{
    let mut out: Vec<char> = Vec::new();
    push_str(&mut out, "<!-- badgers-report:");
    push_str(&mut out, args.repo.as_str());
    push_str(&mut out, ":");
    push_dec(&mut out, args.pr);
    push_str(&mut out, ":");
    crate::text::string_of(&out)
}

/// Whether the comment is published: with an expected head commit, only
/// when the pull request's current head could be read and is that commit
/// (up to ASCII case); without one, always.
pub fn should_publish(expected: Option<&str>, current: Option<&str>) -> (r: bool)
    ensures
        r == match (expected, current) {
            (Some(e), Some(c)) => ascii_lower(e@) == ascii_lower(c@),
            (Some(_), None) => false,
            (None, _) => true,
        },
{
    match (expected, current) {
        (Some(e), Some(c)) => same_commit_sha(e, c),
        (Some(_), None) => false,
        (None, _) => true,
    }
}

/// The check run's title: whether any annotation is published.
pub fn check_run_title(annotations: usize) -> (r: &'static str)
    ensures
        annotations == 0 ==> r@ == "All changed executable lines are covered"@,
        annotations > 0 ==> r@ == "Changed executable lines need coverage"@,
{
    if annotations == 0 {
        "All changed executable lines are covered"
    } else {
        "Changed executable lines need coverage"
    }
}

/// Counts the uncovered changed lines recorded over all files.
pub fn uncovered_line_entries(comparison: &Comparison) -> (r: usize)
    requires
        uncovered_total(comparison.files@) <= usize::MAX,
    ensures
        r == uncovered_total(comparison.files@),
{
    let files = &comparison.files;
    let mut total: usize = 0;
    let mut i: usize = 0;
    while i < files.len()
        invariant
            i <= files@.len(),
            files@ == comparison.files@,
            uncovered_total(files@) <= usize::MAX,
            total == uncovered_total(files@.take(i as int)),
        decreases files@.len() - i,
    {
        assert(files@.take(i + 1).drop_last() =~= files@.take(i as int));
        proof {
            lemma_uncovered_total_prefix(files@, i + 1);
        }
        total = total + files[i].diff.uncovered_lines.len();
        i += 1;
    }
    assert(files@.take(i as int) =~= files@);
    total
}

/// The check run's summary: the uncovered changed lines and ranges, and
/// how many ranges are shown when not all of them are.
pub fn check_run_summary(uncovered_lines: usize, total_ranges: usize, shown: usize) -> (r: String)
    ensures
        r@ == dec(uncovered_lines as nat) + " uncovered changed executable lines across "@ + dec(
            total_ranges as nat,
        ) + " annotation ranges."@ + if total_ranges > shown {
            " Limited to the first "@ + dec(shown as nat) + " ranges."@
        } else {
            seq![]
        },
{
    let mut out: Vec<char> = Vec::new();
    push_dec(&mut out, uncovered_lines as u64);
    push_str(&mut out, " uncovered changed executable lines across ");
    push_dec(&mut out, total_ranges as u64);
    push_str(&mut out, " annotation ranges.");
    let ghost before = out@;
    if total_ranges > shown {
        push_str(&mut out, " Limited to the first ");
        push_dec(&mut out, shown as u64);
        push_str(&mut out, " ranges.");
    } else {
        assert(out@ =~= before + seq![]);
    }
    crate::text::string_of(&out)
}

/// Whether a comparison's head, base and diff totals fit, as the reports
/// that show them require.
pub fn comparison_totals_fit(comparison: &Comparison) -> (r: bool)
    ensures
        r == totals_fit(*comparison),
{
    crate::compare::side_totals_fit(&comparison.files, true) && crate::compare::side_totals_fit(
        &comparison.files,
        false,
    ) && crate::compare::diff_totals_fit(&comparison.files)
}

/// Whether the uncovered changed lines recorded over all files can be
/// counted in a `usize`.
pub fn uncovered_total_fits(comparison: &Comparison) -> (r: bool)
    ensures
        r == (uncovered_total(comparison.files@) <= usize::MAX),
{
    let files = &comparison.files;
    let mut total: usize = 0;
    let mut i: usize = 0;
    while i < files.len()
        invariant
            i <= files@.len(),
            files@ == comparison.files@,
            total == uncovered_total(files@.take(i as int)),
        decreases files@.len() - i,
    {
        assert(files@.take(i + 1).drop_last() =~= files@.take(i as int));
        let x = files[i].diff.uncovered_lines.len();
        if x > usize::MAX - total {
            proof {
                lemma_uncovered_total_prefix(files@, i + 1);
            }
            return false;
        }
        total = total + x;
        i += 1;
    }
    assert(files@.take(i as int) =~= files@);
    true
}

} // verus!
