//! The Markdown coverage report: a totals table, the changed executable lines
//! per file with links to their source, and the coverage of every directory
//! and file as a collapsible tree.
use vstd::prelude::*;

use crate::compare::{Comparison, FileDelta, counts_total, diff_total, head_side, base_side};
use crate::dirtree::{
    Agg, DirAgg, agg_fits, all_agg, child_names, dir_agg, direct_files, max_parts, parts_views,
    path_parts, vec_views,
};
use crate::report_github::{comparison_delta, short_sha_text, totals_fit};
use crate::github_storage::{repo_part_char, valid_repo_part};
use crate::model::CoverageSnapshot;
use crate::pct::{delta_scaled, fixed2, pct_text, round_half_even};
use crate::report_github::{code_path_chars, navigation_url_error, range_text, ranges_of};
use crate::storage::hex_digit;
use vstd::string::StringExecFns;

use crate::text::{
    chars_of, dec, hex_upper, is_alnum, is_control, is_hex_digit, push_chars, push_dec, push_str,
    split,
};

verus! {

// ---------------------------------------------------------------------------
// Validation.
// ---------------------------------------------------------------------------

/// An `https://` link without credentials, query, fragment or unsafe characters.
pub fn validate_https_url(url: &str, label: &str) -> (r: Result<(), String>)
    ensures
        match navigation_url_error(url@, label@) {
            None => r is Ok,
            Some(m) => r matches Err(e) && e@ == m,
        },
{
    crate::report_github::validate_navigation_url(Some(url), label)
}

/// `owner/repo` with non-empty parts of `[A-Za-z0-9_.-]`.
pub open spec fn markdown_repo_slug(v: Seq<char>) -> bool {
    let parts = split(v, '/');
    parts.len() == 2 && valid_repo_part(parts[0]) && valid_repo_part(parts[1])
}

fn all_repo_part_chars(s: &[char]) -> (r: bool)
    ensures
        r == valid_repo_part(s@),
{
    if s.len() == 0 {
        return false;
    }
    let mut i: usize = 0;
    while i < s.len()
        invariant
            i <= s@.len(),
            forall|j: int| 0 <= j < i ==> repo_part_char(#[trigger] s@[j]),
        decreases s@.len() - i,
    {
        let c = s[i];
        if !(crate::text::char_is_alnum(c) || c == '_' || c == '.' || c == '-') {
            return false;
        }
        i += 1;
    }
    true
}

pub fn valid_repo_slug(repo: &str) -> (r: bool)
    ensures
        r == markdown_repo_slug(repo@),
{
    let cs = chars_of(repo);
    let parts = crate::text::split_char(&cs, '/');
    parts.len() == 2 && all_repo_part_chars(&parts[0]) && all_repo_part_chars(&parts[1])
}

/// Seven to sixty-four hexadecimal digits.
pub open spec fn markdown_commit_sha(v: Seq<char>) -> bool {
    7 <= v.len() <= 64 && forall|i: int| 0 <= i < v.len() ==> is_hex_digit(#[trigger] v[i])
}

pub fn valid_commit_sha(sha: &str) -> (r: bool)
    ensures
        r == markdown_commit_sha(sha@),
{
    let cs = chars_of(sha);
    if cs.len() < 7 || cs.len() > 64 {
        return false;
    }
    let mut i: usize = 0;
    while i < cs.len()
        invariant
            i <= cs@.len(),
            cs@ == sha@,
            forall|j: int| 0 <= j < i ==> is_hex_digit(#[trigger] cs@[j]),
        decreases cs@.len() - i,
    {
        if !crate::text::char_is_hex_digit(cs[i]) {
            return false;
        }
        i += 1;
    }
    true
}

/// The GitHub blob URL of the snapshot's commit, when its repository and
/// commit look valid.
pub open spec fn default_source_url_of(repo: Seq<char>, sha: Seq<char>) -> Option<Seq<char>> {
    if markdown_repo_slug(repo) && markdown_commit_sha(sha) {
        Some("https://github.com/"@ + repo + "/blob/"@ + sha)
    } else {
        None
    }
}

pub fn default_source_url(head: &CoverageSnapshot) -> (r: Option<String>)
    ensures
        match default_source_url_of(head.repo@, head.commit_sha@) {
            None => r is None,
            Some(u) => r matches Some(s) && s@ == u,
        },
{
    if !valid_repo_slug(head.repo.as_str()) || !valid_commit_sha(head.commit_sha.as_str()) {
        return None;
    }
    let mut out: Vec<char> = Vec::new();
    push_str(&mut out, "https://github.com/");
    push_str(&mut out, head.repo.as_str());
    push_str(&mut out, "/blob/");
    push_str(&mut out, head.commit_sha.as_str());
    Some(crate::text::string_of(&out))
}

/// A non-empty path that does not start at `/` and has no empty, `.` or
/// `..` component.
pub open spec fn relative_source_path(path: Seq<char>) -> bool {
    let parts = split(path, '/');
    &&& path.len() > 0
    &&& path[0] != '/'
    &&& forall|i: int|
        0 <= i < parts.len() ==> (#[trigger] parts[i]).len() > 0 && parts[i] != "."@ && parts[i]
            != ".."@
}

pub fn valid_relative_source_path(path: &str) -> (r: bool)
    ensures
        r == relative_source_path(path@),
{
    let cs = chars_of(path);
    if cs.len() == 0 || cs[0] == '/' {
        return false;
    }
    let parts = crate::text::split_char(&cs, '/');
    let dot = chars_of(".");
    let dotdot = chars_of("..");
    proof {
        reveal_strlit(".");
        reveal_strlit("..");
    }
    let mut i: usize = 0;
    while i < parts.len()
        invariant
            i <= parts@.len(),
            dot@ == "."@,
            dotdot@ == ".."@,
            parts@.len() == split(path@, '/').len(),
            forall|j: int| 0 <= j < parts@.len() ==> (#[trigger] parts@[j])@ == split(path@, '/')[j],
            forall|j: int|
                0 <= j < i ==> (#[trigger] split(path@, '/')[j]).len() > 0 && split(path@, '/')[j]
                    != "."@ && split(path@, '/')[j] != ".."@,
        decreases parts@.len() - i,
    {
        let part = &parts[i];
        if part.len() == 0 || crate::text::seq_eq(part, &dot) || crate::text::seq_eq(part, &dotdot) {
            return false;
        }
        i += 1;
    }
    true
}

// ---------------------------------------------------------------------------
// Text pieces.
// ---------------------------------------------------------------------------

/// Line breaks and tabs written as `\n`, `\r`, `\t`, other control
/// characters as `\u{XX}`, so a path shows on one line.
pub open spec fn visible_text(s: Seq<char>) -> Seq<char>
    decreases s.len(),
{
    if s.len() == 0 {
        seq![]
    } else {
        let c = s.last();
        visible_text(s.drop_last()) + if c == '\n' {
            "\\n"@
        } else if c == '\r' {
            "\\r"@
        } else if c == '\t' {
            "\\t"@
        } else if is_control(c) {
            "\\u{"@ + hex_upper((c as u32) as nat) + "}"@
        } else {
            seq![c]
        }
    }
}

fn push_visible(out: &mut Vec<char>, s: &[char])
    ensures
        final(out)@ == old(out)@ + visible_text(s@),
{
    let ghost start = out@;
    let mut i: usize = 0;
    while i < s.len()
        invariant
            i <= s@.len(),
            out@ == start + visible_text(s@.take(i as int)),
        decreases s@.len() - i,
    {
        assert(s@.take(i + 1).drop_last() =~= s@.take(i as int));
        let c = s[i];
        if c == '\n' {
            push_str(out, "\\n");
        } else if c == '\r' {
            push_str(out, "\\r");
        } else if c == '\t' {
            push_str(out, "\\t");
        } else if crate::text::char_is_control(c) {
            push_str(out, "\\u{");
            crate::text::push_hex(out, c as u32);
            push_str(out, "}");
        } else {
            out.push(c);
        }
        i += 1;
        assert(out@ =~= start + visible_text(s@.take(i as int)));
    }
    assert(s@.take(i as int) =~= s@);
}

pub fn visible_path(value: &str) -> (r: String)
    ensures
        r@ == visible_text(value@),
{
    let cs = chars_of(value);
    let mut out: Vec<char> = Vec::new();
    push_visible(&mut out, &cs);
    crate::text::string_of(&out)
}

fn push_markdown_html(out: &mut Vec<char>, s: &[char])
    ensures
        final(out)@ == old(out)@ + code_path_chars(s@),
{
    let ghost start = out@;
    let mut i: usize = 0;
    while i < s.len()
        invariant
            i <= s@.len(),
            out@ == start + code_path_chars(s@.take(i as int)),
        decreases s@.len() - i,
    {
        assert(s@.take(i + 1).drop_last() =~= s@.take(i as int));
        let c = s[i];
        if crate::text::char_is_alnum(c) || c == '/' || c == '.' || c == '-' || c == ' ' {
            out.push(c);
        } else if c <= '\u{7f}' {
            push_str(out, "&#x");
            crate::text::push_hex(out, c as u32);
            push_str(out, ";");
        } else {
            out.push(c);
        }
        i += 1;
        assert(out@ =~= start + code_path_chars(s@.take(i as int)));
    }
    assert(s@.take(i as int) =~= s@);
}

/// Text inside HTML that Markdown leaves alone: ASCII other than letters,
/// digits, `/ . -` and space as hexadecimal character references.
pub fn markdown_html_text(value: &str) -> (r: String)
    ensures
        r@ == code_path_chars(value@),
{
    let cs = chars_of(value);
    let mut out: Vec<char> = Vec::new();
    push_markdown_html(&mut out, &cs);
    crate::text::string_of(&out)
}

/// A path shown as code: visible, then protected from Markdown.
pub open spec fn code_path_text(path: Seq<char>) -> Seq<char> {
    "<code>"@ + code_path_chars(visible_text(path)) + "</code>"@
}

fn push_code_path(out: &mut Vec<char>, path: &str)
    ensures
        final(out)@ == old(out)@ + code_path_text(path@),
{
    let cs = chars_of(path);
    let mut visible: Vec<char> = Vec::new();
    push_visible(&mut visible, &cs);
    push_str(out, "<code>");
    push_markdown_html(out, &visible);
    push_str(out, "</code>");
    assert(final(out)@ =~= old(out)@ + code_path_text(path@));
}

pub fn code_path(path: &str) -> (r: String)
    ensures
        r@ == code_path_text(path@),
{
    let mut out: Vec<char> = Vec::new();
    push_code_path(&mut out, path);
    crate::text::string_of(&out)
}

/// HTML escaping for attribute values: `& < > "` and `'`.
pub open spec fn attr_escaped(v: Seq<char>) -> Seq<char>
    decreases v.len(),
{
    if v.len() == 0 {
        seq![]
    } else {
        let c = v.last();
        attr_escaped(v.drop_last()) + if c == '\'' {
            "&#39;"@
        } else if c == '&' {
            "&amp;"@
        } else if c == '<' {
            "&lt;"@
        } else if c == '>' {
            "&gt;"@
        } else if c == '"' {
            "&quot;"@
        } else {
            seq![c]
        }
    }
}

fn push_attr_escaped(out: &mut Vec<char>, v: &[char])
    ensures
        final(out)@ == old(out)@ + attr_escaped(v@),
{
    let ghost start = out@;
    let mut i: usize = 0;
    while i < v.len()
        invariant
            i <= v@.len(),
            out@ == start + attr_escaped(v@.take(i as int)),
        decreases v@.len() - i,
    {
        assert(v@.take(i + 1).drop_last() =~= v@.take(i as int));
        let c = v[i];
        if c == '\'' {
            push_str(out, "&#39;");
        } else if c == '&' {
            push_str(out, "&amp;");
        } else if c == '<' {
            push_str(out, "&lt;");
        } else if c == '>' {
            push_str(out, "&gt;");
        } else if c == '"' {
            push_str(out, "&quot;");
        } else {
            out.push(c);
        }
        i += 1;
        assert(out@ =~= start + attr_escaped(v@.take(i as int)));
    }
    assert(v@.take(i as int) =~= v@);
}

pub fn html_attr_escape(value: &str) -> (r: String)
    ensures
        r@ == attr_escaped(value@),
{
    let cs = chars_of(value);
    let mut out: Vec<char> = Vec::new();
    push_attr_escaped(&mut out, &cs);
    crate::text::string_of(&out)
}

pub open spec fn md_link_text(url: Seq<char>, label: Seq<char>) -> Seq<char> {
    "<a href=\""@ + attr_escaped(url) + "\">"@ + code_path_chars(label) + "</a>"@
}

pub fn html_link(url: &str, label: &str) -> (r: String)
    ensures
        r@ == md_link_text(url@, label@),
{
    let mut out: Vec<char> = Vec::new();
    push_str(&mut out, "<a href=\"");
    let u = chars_of(url);
    push_attr_escaped(&mut out, &u);
    push_str(&mut out, "\">");
    let l = chars_of(label);
    push_markdown_html(&mut out, &l);
    push_str(&mut out, "</a>");
    crate::text::string_of(&out)
}

/// Bytes kept verbatim in a source path: `[A-Za-z0-9._~/-]`.
pub open spec fn path_byte_kept(b: u8) -> bool {
    (65 <= b <= 90) || (97 <= b <= 122) || (48 <= b <= 57) || b == 45 || b == 95 || b == 46 || b
        == 126 || b == 47
}

/// A path percent-encoded byte by byte, keeping `[A-Za-z0-9._~/-]`.
pub open spec fn path_encoded(bytes: Seq<u8>) -> Seq<char>
    decreases bytes.len(),
{
    if bytes.len() == 0 {
        seq![]
    } else {
        let b = bytes.last();
        path_encoded(bytes.drop_last()) + if path_byte_kept(b) {
            seq![b as char]
        } else {
            seq!['%', hex_digit(b / 16), hex_digit(b % 16)]
        }
    }
}

fn push_hex_byte_digit(out: &mut Vec<char>, n: u8)
    requires
        n < 16,
    ensures
        final(out)@ == old(out)@.push(hex_digit(n)),
{
    if n < 10 {
        out.push((48u8 + n) as char);
    } else {
        out.push((55u8 + n) as char);
    }
}

fn push_path_encoded(out: &mut Vec<char>, path: &str)
    ensures
        final(out)@ == old(out)@ + path_encoded(vstd::utf8::encode_utf8(path@)),
{
    let bytes = path.as_bytes();
    let ghost bs = bytes@;
    let ghost start = out@;
    let mut i: usize = 0;
    while i < bytes.len()
        invariant
            i <= bs.len(),
            bs == bytes@,
            out@ == start + path_encoded(bs.take(i as int)),
        decreases bs.len() - i,
    {
        let b = bytes[i];
        assert(bs.take(i + 1).drop_last() =~= bs.take(i as int));
        assert(bs.take(i + 1).last() == b);
        let keep = (65 <= b && b <= 90) || (97 <= b && b <= 122) || (48 <= b && b <= 57) || b == 45
            || b == 95 || b == 46 || b == 126 || b == 47;
        if keep {
            out.push(b as char);
        } else {
            out.push('%');
            push_hex_byte_digit(out, b / 16);
            push_hex_byte_digit(out, b % 16);
        }
        i += 1;
        assert(out@ =~= start + path_encoded(bs.take(i as int)));
    }
    assert(bs.take(i as int) =~= bs);
}

pub fn encode_path(path: &str) -> (r: String)
    ensures
        r@ == path_encoded(vstd::utf8::encode_utf8(path@)),
{
    let mut out: Vec<char> = Vec::new();
    push_path_encoded(&mut out, path);
    crate::text::string_of(&out)
}

/// `s` without trailing `/`.
pub open spec fn trim_end_slashes(s: Seq<char>) -> Seq<char>
    decreases s.len(),
{
    if s.len() > 0 && s.last() == '/' {
        trim_end_slashes(s.drop_last())
    } else {
        s
    }
}

fn push_trimmed_base(out: &mut Vec<char>, base: &str)
    ensures
        final(out)@ == old(out)@ + trim_end_slashes(base@),
{
    let cs = chars_of(base);
    let mut n = cs.len();
    assert(cs@.take(n as int) =~= base@);
    while n > 0 && cs[n - 1] == '/'
        invariant
            n <= cs@.len(),
            cs@ == base@,
            trim_end_slashes(cs@.take(n as int)) == trim_end_slashes(base@),
        decreases n,
    {
        assert(cs@.take(n as int).drop_last() =~= cs@.take(n - 1));
        n -= 1;
    }
    proof {
        if n == cs@.len() {
            assert(cs@.take(n as int) =~= base@);
        }
    }
    assert(trim_end_slashes(cs@.take(n as int)) == cs@.take(n as int));
    let head = crate::text::slice_of(&cs, 0, n);
    push_chars(out, &head);
}

/// The source base a link can use for `path`: a valid `https://` base and a
/// relative path.
pub open spec fn link_base(path: Seq<char>, source_url: Option<&str>) -> Option<Seq<char>> {
    match source_url {
        Some(b) => if navigation_url_error(b@, "source URL"@) is None && relative_source_path(path) {
            Some(b@)
        } else {
            None
        },
        None => None,
    }
}

fn link_base_ok(path: &str, source_url: Option<&str>) -> (r: bool)
    ensures
        r == link_base(path@, source_url) is Some,
{
    match source_url {
        Some(b) => validate_https_url(b, "source URL").is_ok() && valid_relative_source_path(path),
        None => false,
    }
}

/// A file as code, linked to its source when a base is usable.
pub open spec fn file_link_text(path: Seq<char>, source_url: Option<&str>) -> Seq<char> {
    match link_base(path, source_url) {
        Some(b) => "<a href=\""@ + attr_escaped(
            trim_end_slashes(b) + "/"@ + path_encoded(vstd::utf8::encode_utf8(path)),
        ) + "\">"@ + code_path_text(path) + "</a>"@,
        None => code_path_text(path),
    }
}

fn push_file_link(out: &mut Vec<char>, path: &str, source_url: Option<&str>)
    ensures
        final(out)@ == old(out)@ + file_link_text(path@, source_url),
{
    if link_base_ok(path, source_url) {
        match source_url {
            Some(base) => {
                let mut href: Vec<char> = Vec::new();
                push_trimmed_base(&mut href, base);
                push_str(&mut href, "/");
                push_path_encoded(&mut href, path);
                push_str(out, "<a href=\"");
                push_attr_escaped(out, &href);
                push_str(out, "\">");
                push_code_path(out, path);
                push_str(out, "</a>");
                assert(final(out)@ =~= old(out)@ + file_link_text(path@, source_url));
            },
            None => {},
        }
    } else {
        push_code_path(out, path);
    }
}

pub fn file_link(path: &str, source_url: Option<&str>) -> (r: String)
    ensures
        r@ == file_link_text(path@, source_url),
{
    let mut out: Vec<char> = Vec::new();
    push_file_link(&mut out, path, source_url);
    crate::text::string_of(&out)
}

/// `L5` or `L5-L7`, linked to those lines of the source when a base is usable.
pub open spec fn line_link_text(
    path: Seq<char>,
    start: u32,
    end: u32,
    source_url: Option<&str>,
) -> Seq<char> {
    match link_base(path, source_url) {
        Some(b) => "<a href=\""@ + attr_escaped(
            trim_end_slashes(b) + "/"@ + path_encoded(vstd::utf8::encode_utf8(path)) + "#"@
                + range_text((start, end)),
        ) + "\">"@ + range_text((start, end)) + "</a>"@,
        None => range_text((start, end)),
    }
}

fn push_line_link(out: &mut Vec<char>, path: &str, start: u32, end: u32, source_url: Option<&str>)
    ensures
        final(out)@ == old(out)@ + line_link_text(path@, start, end, source_url),
{
    let label = crate::report_github::fmt_range(start, end);
    if link_base_ok(path, source_url) {
        match source_url {
            Some(base) => {
                let mut href: Vec<char> = Vec::new();
                push_trimmed_base(&mut href, base);
                push_str(&mut href, "/");
                push_path_encoded(&mut href, path);
                push_str(&mut href, "#");
                push_str(&mut href, label.as_str());
                push_str(out, "<a href=\"");
                push_attr_escaped(out, &href);
                push_str(out, "\">");
                push_str(out, label.as_str());
                push_str(out, "</a>");
                assert(final(out)@ =~= old(out)@ + line_link_text(path@, start, end, source_url));
            },
            None => {},
        }
    } else {
        push_str(out, label.as_str());
    }
}

pub fn line_link(path: &str, start: u32, end: u32, source_url: Option<&str>) -> (r: String)
    ensures
        r@ == line_link_text(path@, start, end, source_url),
{
    let mut out: Vec<char> = Vec::new();
    push_line_link(&mut out, path, start, end, source_url);
    crate::text::string_of(&out)
}


// ---------------------------------------------------------------------------
// Cells.
// ---------------------------------------------------------------------------

/// A delta cell: `🟢 +x.xx%p` from half a hundredth up, `🔴 -x.xx%p` from
/// half a hundredth down, `➖ ±0.00%p` between, and `n/a` (with `(no
/// baseline)` when the comparison has none) without both sides.
pub open spec fn md_delta_text(d: Option<(nat, nat, nat, nat)>, base_available: bool) -> Seq<char> {
    match d {
        Some((hc, ht, bc, bt)) => {
            let n = delta_scaled(hc, ht, bc, bt);
            let den = ht * bt;
            let h = round_half_even(
                if n < 0 {
                    -n
                } else {
                    n
                },
                den as int,
            );
            if 2 * n >= den {
                "🟢 +"@ + fixed2(h as nat) + "%p"@
            } else if 2 * n <= -den {
                "🔴 -"@ + fixed2(h as nat) + "%p"@
            } else {
                "➖ ±0.00%p"@
            }
        },
        None => if base_available {
            "n/a"@
        } else {
            "n/a (no baseline)"@
        },
    }
}

fn push_md_delta(out: &mut Vec<char>, d: Option<(u64, u64, u64, u64)>, base_available: bool)
    requires
        d matches Some((hc, ht, bc, bt)) ==> ht > 0 && bt > 0,
    ensures
        final(out)@ == old(out)@ + md_delta_text(
            match d {
                Some((hc, ht, bc, bt)) => Some((hc as nat, ht as nat, bc as nat, bt as nat)),
                None => None,
            },
            base_available,
        ),
{
    match d {
        Some((hc, ht, bc, bt)) => {
            let x = crate::pct::percent_delta(hc, ht, bc, bt);
            if x.rises {
                push_str(out, "🟢 +");
                crate::pct::push_fixed2(out, x.hundredths);
                push_str(out, "%p");
            } else if x.falls {
                push_str(out, "🔴 -");
                crate::pct::push_fixed2(out, x.hundredths);
                push_str(out, "%p");
            } else {
                push_str(out, "➖ ±0.00%p");
            }
        },
        None => {
            if base_available {
                push_str(out, "n/a");
            } else {
                push_str(out, "n/a (no baseline)");
            }
        },
    }
}

/// Both sides of a file, when both have executable lines.
pub open spec fn file_delta(f: FileDelta) -> Option<(nat, nat, nat, nat)> {
    match (f.head, f.base) {
        (Some(h), Some(b)) => if h.executable > 0 && b.executable > 0 {
            Some((h.covered as nat, h.executable as nat, b.covered as nat, b.executable as nat))
        } else {
            None
        },
        _ => None,
    }
}

pub fn file_delta_exec(f: &FileDelta) -> (r: Option<(u64, u64, u64, u64)>)
    ensures
        r matches Some((hc, ht, bc, bt)) ==> ht > 0 && bt > 0,
        match r {
            Some((hc, ht, bc, bt)) => Some((hc as nat, ht as nat, bc as nat, bt as nat)),
            None => None,
        } == file_delta(*f),
{
    match (f.head, f.base) {
        (Some(h), Some(b)) => if h.executable > 0 && b.executable > 0 {
            Some((h.covered, h.executable, b.covered, b.executable))
        } else {
            None
        },
        _ => None,
    }
}

/// Both sides of a directory, when the comparison has a base and both sides
/// have executable lines.
pub open spec fn agg_delta(a: Agg, base_available: bool) -> Option<(nat, nat, nat, nat)> {
    if base_available && a.head_executable > 0 && a.base_executable > 0 {
        Some(
            (
                a.head_covered as nat,
                a.head_executable as nat,
                a.base_covered as nat,
                a.base_executable as nat,
            ),
        )
    } else {
        None
    }
}

/// `n/a` without relevant lines, else the percentage and the counts.
pub open spec fn diff_cell_text(covered: nat, relevant: nat) -> Seq<char> {
    if relevant == 0 {
        "n/a"@
    } else {
        pct_text(covered, relevant) + " ("@ + dec(covered) + "/"@ + dec(relevant) + ")"@
    }
}

fn push_diff_cell(out: &mut Vec<char>, covered: u32, relevant: u32)
    ensures
        final(out)@ == old(out)@ + diff_cell_text(covered as nat, relevant as nat),
{
    if relevant == 0 {
        push_str(out, "n/a");
    } else {
        crate::pct::push_pct(out, covered as u64, relevant as u64);
        push_str(out, " (");
        push_dec(out, covered as u64);
        push_str(out, "/");
        push_dec(out, relevant as u64);
        push_str(out, ")");
    }
    assert(final(out)@ =~= old(out)@ + diff_cell_text(covered as nat, relevant as nat));
}

// ---------------------------------------------------------------------------
// Tables.
// ---------------------------------------------------------------------------

/// The name, lines, covered and coverage cells of a file's row.
pub open spec fn head_cells(f: FileDelta, source_url: Option<&str>) -> Seq<char> {
    match f.head {
        Some(h) => file_link_text(f.path@, source_url) + " | "@ + dec(h.executable as nat) + " | "@
            + dec(h.covered as nat) + " | "@ + pct_text(h.covered as nat, h.executable as nat),
        None => code_path_text(f.path@) + " | — | — | removed"@,
    }
}

pub open spec fn file_row(f: FileDelta, source_url: Option<&str>, base_available: bool) -> Seq<char> {
    "| "@ + head_cells(f, source_url) + " | "@ + md_delta_text(file_delta(f), base_available)
        + " | "@ + diff_cell_text(f.diff.covered as nat, f.diff.relevant as nat) + " |\n"@
}

pub open spec fn file_rows(
    files: Seq<FileDelta>,
    idx: Seq<usize>,
    source_url: Option<&str>,
    base_available: bool,
) -> Seq<char>
    decreases idx.len(),
{
    if idx.len() == 0 {
        seq![]
    } else {
        file_rows(files, idx.drop_last(), source_url, base_available) + file_row(
            files[idx.last() as int],
            source_url,
            base_available,
        )
    }
}

/// The table of the files at positions `idx`, nothing when there are none.
pub open spec fn files_table(
    files: Seq<FileDelta>,
    idx: Seq<usize>,
    source_url: Option<&str>,
    base_available: bool,
) -> Seq<char> {
    if idx.len() == 0 {
        seq![]
    } else {
        "| File | Lines | Covered | Coverage | Δ | Diff coverage |\n"@ + "|---|---:|---:|---:|---:|---:|\n"@
            + file_rows(files, idx, source_url, base_available) + "\n"@
    }
}

fn push_head_cells(out: &mut Vec<char>, f: &FileDelta, source_url: Option<&str>)
    ensures
        final(out)@ == old(out)@ + head_cells(*f, source_url),
{
    match f.head {
        Some(h) => {
            push_file_link(out, f.path.as_str(), source_url);
            push_str(out, " | ");
            push_dec(out, h.executable);
            push_str(out, " | ");
            push_dec(out, h.covered);
            push_str(out, " | ");
            crate::pct::push_pct(out, h.covered, h.executable);
        },
        None => {
            push_code_path(out, f.path.as_str());
            push_str(out, " | — | — | removed");
        },
    }
    assert(final(out)@ =~= old(out)@ + head_cells(*f, source_url));
}

fn push_file_row(out: &mut Vec<char>, f: &FileDelta, source_url: Option<&str>, base_available: bool)
    ensures
        final(out)@ == old(out)@ + file_row(*f, source_url, base_available),
{
    push_str(out, "| ");
    push_head_cells(out, f, source_url);
    push_str(out, " | ");
    let d = file_delta_exec(f);
    push_md_delta(out, d, base_available);
    push_str(out, " | ");
    push_diff_cell(out, f.diff.covered, f.diff.relevant);
    push_str(out, " |\n");
    assert(final(out)@ =~= old(out)@ + file_row(*f, source_url, base_available));
}

fn push_files_table(
    out: &mut Vec<char>,
    files: &Vec<FileDelta>,
    idx: &Vec<usize>,
    source_url: Option<&str>,
    base_available: bool,
)
    requires
        forall|j: int| 0 <= j < idx@.len() ==> #[trigger] idx@[j] < files@.len(),
    ensures
        final(out)@ == old(out)@ + files_table(files@, idx@, source_url, base_available),
{
    if idx.len() == 0 {
        return;
    }
    push_str(out, "| File | Lines | Covered | Coverage | Δ | Diff coverage |\n");
    push_str(out, "|---|---:|---:|---:|---:|---:|\n");
    let ghost start = out@;
    let mut i: usize = 0;
    while i < idx.len()
        invariant
            i <= idx@.len(),
            forall|j: int| 0 <= j < idx@.len() ==> #[trigger] idx@[j] < files@.len(),
            out@ == start + file_rows(files@, idx@.take(i as int), source_url, base_available),
        decreases idx@.len() - i,
    {
        assert(idx@.take(i + 1).drop_last() =~= idx@.take(i as int));
        assert(idx@[i as int] < files@.len());
        push_file_row(out, &files[idx[i]], source_url, base_available);
        i += 1;
        assert(out@ =~= start + file_rows(files@, idx@.take(i as int), source_url, base_available));
    }
    assert(idx@.take(i as int) =~= idx@);
    push_str(out, "\n");
    assert(final(out)@ =~= old(out)@ + files_table(files@, idx@, source_url, base_available));
}


// ---------------------------------------------------------------------------
// Changed lines.
// ---------------------------------------------------------------------------

pub open spec fn line_links(path: Seq<char>, ranges: Seq<(u32, u32)>, source_url: Option<&str>) -> Seq<Seq<char>> {
    Seq::new(ranges.len(), |i: int| line_link_text(path, ranges[i].0, ranges[i].1, source_url))
}

pub open spec fn changed_block_head(f: FileDelta, source_url: Option<&str>) -> Seq<char> {
    "<details"@ + (if f.diff.uncovered_lines@.len() == 0 {
        seq![]
    } else {
        " open"@
    }) + ">\n<summary>"@ + file_link_text(f.path@, source_url) + " — "@ + diff_cell_text(
        f.diff.covered as nat,
        f.diff.relevant as nat,
    ) + "</summary>\n\n"@
}

pub open spec fn changed_block_body(f: FileDelta, source_url: Option<&str>) -> Seq<char> {
    let uncovered = f.diff.uncovered_lines@;
    if uncovered.len() == 0 {
        "✅ All changed executable lines are covered.\n\n"@
    } else {
        "**Uncovered:** "@ + crate::text::join(
            line_links(f.path@, ranges_of(uncovered), source_url),
            ", "@,
        ) + "\n\n"@
    }
}

/// One changed file: open when it has uncovered lines, which are listed as
/// links to their runs.
pub open spec fn changed_block(f: FileDelta, source_url: Option<&str>) -> Seq<char> {
    changed_block_head(f, source_url) + changed_block_body(f, source_url) + "</details>\n\n"@
}

/// The files with changed executable lines, in order.
pub open spec fn changed_files(s: Seq<FileDelta>) -> Seq<FileDelta>
    decreases s.len(),
{
    if s.len() == 0 {
        seq![]
    } else if s.last().diff.relevant > 0 {
        changed_files(s.drop_last()).push(s.last())
    } else {
        changed_files(s.drop_last())
    }
}

pub open spec fn changed_blocks(s: Seq<FileDelta>, source_url: Option<&str>) -> Seq<char>
    decreases s.len(),
{
    if s.len() == 0 {
        seq![]
    } else {
        changed_blocks(s.drop_last(), source_url) + changed_block(s.last(), source_url)
    }
}

pub open spec fn changed_section(files: Seq<FileDelta>, source_url: Option<&str>) -> Seq<char> {
    "## Changed executable lines\n\n"@ + if changed_files(files).len() == 0 {
        "No measurable changed lines.\n\n"@
    } else {
        changed_blocks(changed_files(files), source_url)
    }
}

fn push_changed_block(out: &mut Vec<char>, f: &FileDelta, source_url: Option<&str>)
    ensures
        final(out)@ == old(out)@ + changed_block(*f, source_url),
{
    let empty = f.diff.uncovered_lines.len() == 0;
    push_str(out, "<details");
    if !empty {
        push_str(out, " open");
    }
    push_str(out, ">\n<summary>");
    push_file_link(out, f.path.as_str(), source_url);
    push_str(out, " — ");
    push_diff_cell(out, f.diff.covered, f.diff.relevant);
    push_str(out, "</summary>\n\n");
    let ghost mid = out@;
    assert(mid =~= old(out)@ + changed_block_head(*f, source_url));
    if empty {
        push_str(out, "✅ All changed executable lines are covered.\n\n");
    } else {
        push_str(out, "**Uncovered:** ");
        let ranges = crate::report_github::line_number_ranges(f.diff.uncovered_lines.as_slice());
        let ghost links = line_links(f.path@, ranges@, source_url);
        let ghost start = out@;
        let mut i: usize = 0;
        while i < ranges.len()
            invariant
                i <= ranges@.len(),
                links == line_links(f.path@, ranges@, source_url),
                out@ == start + crate::text::join(links.take(i as int), ", "@),
            decreases ranges@.len() - i,
        {
            proof {
                crate::text::lemma_join_push(links.take(i as int), ", "@, links[i as int]);
                assert(links.take(i as int).push(links[i as int]) =~= links.take(i + 1));
            }
            if i > 0 {
                push_str(out, ", ");
            }
            push_line_link(out, f.path.as_str(), ranges[i].0, ranges[i].1, source_url);
            i += 1;
        }
        assert(links.take(i as int) =~= links);
        push_str(out, "\n\n");
    }
    assert(out@ =~= mid + changed_block_body(*f, source_url));
    push_str(out, "</details>\n\n");
    assert(final(out)@ =~= old(out)@ + changed_block(*f, source_url));
}

fn push_changed_section(out: &mut Vec<char>, files: &Vec<FileDelta>, source_url: Option<&str>)
    ensures
        final(out)@ == old(out)@ + changed_section(files@, source_url),
{
    push_str(out, "## Changed executable lines\n\n");
    let mut any = false;
    let mut k: usize = 0;
    while k < files.len()
        invariant
            k <= files@.len(),
            any == (changed_files(files@.take(k as int)).len() > 0),
        decreases files@.len() - k,
    {
        assert(files@.take(k + 1).drop_last() =~= files@.take(k as int));
        if files[k].diff.relevant > 0 {
            any = true;
        }
        k += 1;
    }
    assert(files@.take(k as int) =~= files@);
    if !any {
        push_str(out, "No measurable changed lines.\n\n");
        return;
    }
    let ghost start = out@;
    let mut i: usize = 0;
    while i < files.len()
        invariant
            i <= files@.len(),
            out@ == start + changed_blocks(changed_files(files@.take(i as int)), source_url),
        decreases files@.len() - i,
    {
        assert(files@.take(i + 1).drop_last() =~= files@.take(i as int));
        if files[i].diff.relevant > 0 {
            let ghost prev = changed_files(files@.take(i as int));
            assert(prev.push(files@[i as int]).drop_last() =~= prev);
            push_changed_block(out, &files[i], source_url);
        }
        i += 1;
    }
    assert(files@.take(i as int) =~= files@);
}


// ---------------------------------------------------------------------------
// The directory tree.
// ---------------------------------------------------------------------------

/// `depth` em-space references.
pub open spec fn indent_text(depth: nat) -> Seq<char>
    decreases depth,
{
    if depth == 0 {
        seq![]
    } else {
        indent_text((depth - 1) as nat) + "&#x2003;"@
    }
}

pub open spec fn md_dir_open(name: Seq<char>, depth: nat) -> Seq<char> {
    "<details"@ + (if depth == 0 {
        " open"@
    } else {
        seq![]
    }) + ">\n<summary>"@ + indent_text(depth) + "📁 <strong>"@ + code_path_chars(name)
        + "/</strong> — "@
}

pub open spec fn md_dir_counts(a: Agg, base_available: bool) -> Seq<char> {
    pct_text(a.head_covered as nat, a.head_executable as nat) + " ("@ + dec(a.head_covered as nat)
        + "/"@ + dec(a.head_executable as nat) + ") · Δ "@ + md_delta_text(
        agg_delta(a, base_available),
        base_available,
    ) + " · Diff "@ + diff_cell_text(a.diff_covered as nat, a.diff_relevant as nat)
        + "</summary>\n\n"@
}

/// A directory's summary line: open at the top level, indented by depth,
/// with its coverage, delta and changed-line coverage.
pub open spec fn md_dir_summary(name: Seq<char>, depth: nat, a: Agg, base_available: bool) -> Seq<char> {
    md_dir_open(name, depth) + md_dir_counts(a, base_available)
}

/// The subdirectories `names` of `d`, each with its files and its own
/// subdirectories.
pub open spec fn md_blocks(
    files: Seq<FileDelta>,
    ps: Seq<Seq<Seq<char>>>,
    d: Seq<Seq<char>>,
    names: Seq<Seq<char>>,
    depth: nat,
    source_url: Option<&str>,
    base_available: bool,
) -> Seq<char>
    decreases max_parts(ps) - d.len(), 0int, names.len(),
{
    if names.len() == 0 || d.len() >= max_parts(ps) {
        seq![]
    } else {
        md_blocks(files, ps, d, names.drop_last(), depth, source_url, base_available) + md_dir(
            files,
            ps,
            d,
            names.last(),
            depth,
            source_url,
            base_available,
        )
    }
}

/// Subdirectory `name` of `d`: its summary, its files, its subdirectories.
pub open spec fn md_dir(
    files: Seq<FileDelta>,
    ps: Seq<Seq<Seq<char>>>,
    d: Seq<Seq<char>>,
    name: Seq<char>,
    depth: nat,
    source_url: Option<&str>,
    base_available: bool,
) -> Seq<char>
    decreases max_parts(ps) - d.len() - 1, 1int, 0int,
{
    let c = d.push(name);
    md_dir_summary(name, depth, dir_agg(files, ps, c, files.len()), base_available) + files_table(
        files,
        direct_files(ps, c, ps.len()),
        source_url,
        base_available,
    ) + md_blocks(
        files,
        ps,
        c,
        child_names(ps, c, ps.len()),
        depth + 1,
        source_url,
        base_available,
    ) + "</details>\n\n"@
}

fn push_indent(out: &mut Vec<char>, depth: usize)
    ensures
        final(out)@ == old(out)@ + indent_text(depth as nat),
    decreases depth,
{
    if depth > 0 {
        push_indent(out, depth - 1);
        push_str(out, "&#x2003;");
    }
}

fn push_md_dir_open(out: &mut Vec<char>, name: &Vec<char>, depth: usize)
    ensures
        final(out)@ == old(out)@ + md_dir_open(name@, depth as nat),
{
    push_str(out, "<details");
    if depth == 0 {
        push_str(out, " open");
    }
    push_str(out, ">\n<summary>");
    push_indent(out, depth);
    push_str(out, "📁 <strong>");
    push_markdown_html(out, name);
    push_str(out, "/</strong> — ");
    assert(final(out)@ =~= old(out)@ + md_dir_open(name@, depth as nat));
}

fn push_agg_delta(out: &mut Vec<char>, a: DirAgg, base_available: bool)
    ensures
        final(out)@ == old(out)@ + md_delta_text(agg_delta(a.spec_agg(), base_available), base_available),
{
    let d = if base_available && a.head_executable > 0 && a.base_executable > 0 {
        Some((a.head_covered, a.head_executable, a.base_covered, a.base_executable))
    } else {
        None
    };
    push_md_delta(out, d, base_available);
}

fn push_md_dir_counts(out: &mut Vec<char>, a: DirAgg, base_available: bool)
    ensures
        final(out)@ == old(out)@ + md_dir_counts(a.spec_agg(), base_available),
{
    crate::pct::push_pct(out, a.head_covered, a.head_executable);
    push_str(out, " (");
    push_dec(out, a.head_covered);
    push_str(out, "/");
    push_dec(out, a.head_executable);
    push_str(out, ") · Δ ");
    let ghost mid = out@;
    push_agg_delta(out, a, base_available);
    push_str(out, " · Diff ");
    push_diff_cell(out, a.diff_covered, a.diff_relevant);
    push_str(out, "</summary>\n\n");
    assert(final(out)@ =~= old(out)@ + md_dir_counts(a.spec_agg(), base_available));
}

fn push_md_dir_summary(out: &mut Vec<char>, name: &Vec<char>, depth: usize, a: DirAgg, base_available: bool)
    ensures
        final(out)@ == old(out)@ + md_dir_summary(name@, depth as nat, a.spec_agg(), base_available),
{
    push_md_dir_open(out, name, depth);
    push_md_dir_counts(out, a, base_available);
    assert(final(out)@ =~= old(out)@ + md_dir_summary(name@, depth as nat, a.spec_agg(), base_available));
}

/// The inputs of the tree: the files, their path components, the deepest
/// path, and sums that fit.
pub open spec fn tree_inputs(files: Seq<FileDelta>, ps: Seq<Vec<Vec<char>>>, maxp: usize) -> bool {
    &&& parts_views(ps) == path_parts(files)
    &&& maxp == max_parts(parts_views(ps))
    &&& agg_fits(all_agg(files, files.len()))
}

fn push_md_blocks(
    out: &mut Vec<char>,
    files: &Vec<FileDelta>,
    ps: &Vec<Vec<Vec<char>>>,
    d: &Vec<Vec<char>>,
    depth: usize,
    maxp: usize,
    source_url: Option<&str>,
    base_available: bool,
)
    requires
        tree_inputs(files@, ps@, maxp),
        depth <= d@.len(),
    ensures
        final(out)@ == old(out)@ + md_blocks(
            files@,
            parts_views(ps@),
            vec_views(d@),
            child_names(parts_views(ps@), vec_views(d@), ps@.len()),
            depth as nat,
            source_url,
            base_available,
        ),
    decreases maxp - d@.len(), 0int, 0int,
{
    let ghost pv = parts_views(ps@);
    let ghost dv = vec_views(d@);
    let names = crate::dirtree::child_names_exec(ps, d);
    let ghost nv = vec_views(names@);
    if d.len() >= maxp {
        proof {
            if nv.len() > 0 {
            }
        }
        return;
    }
    let ghost start = out@;
    let mut i: usize = 0;
    while i < names.len()
        invariant
            i <= names@.len(),
            tree_inputs(files@, ps@, maxp),
            depth <= d@.len() < maxp,
            pv == parts_views(ps@),
            dv == vec_views(d@),
            nv == vec_views(names@),
            out@ == start + md_blocks(files@, pv, dv, nv.take(i as int), depth as nat, source_url, base_available),
        decreases names@.len() - i,
    {
        proof {
            assert(nv.take(i + 1).drop_last() =~= nv.take(i as int));
            assert(nv.take(i + 1).last() == names@[i as int]@);
        }
        push_md_dir(out, files, ps, d, &names[i], depth, maxp, source_url, base_available);
        i += 1;
    }
    assert(nv.take(i as int) =~= nv);
}

fn push_md_dir(
    out: &mut Vec<char>,
    files: &Vec<FileDelta>,
    ps: &Vec<Vec<Vec<char>>>,
    d: &Vec<Vec<char>>,
    name: &Vec<char>,
    depth: usize,
    maxp: usize,
    source_url: Option<&str>,
    base_available: bool,
)
    requires
        tree_inputs(files@, ps@, maxp),
        depth <= d@.len() < maxp,
    ensures
        final(out)@ == old(out)@ + md_dir(
            files@,
            parts_views(ps@),
            vec_views(d@),
            name@,
            depth as nat,
            source_url,
            base_available,
        ),
    decreases maxp - d@.len() - 1, 1int, 0int,
{
    let c = crate::dirtree::child_dir(d, name);
    let ghost pv = parts_views(ps@);
    let ghost cv = vec_views(c@);
    assert(ps@.len() == pv.len());
    assert(files@.len() == path_parts(files@).len());
    let ghost s0 = out@;
    let agg = crate::dirtree::aggregate(files, ps, &c);
    push_md_dir_summary(out, name, depth, agg, base_available);
    let ghost s1 = out@;
    let direct = crate::dirtree::direct_files_exec(ps, &c);
    push_files_table(out, files, &direct, source_url, base_available);
    let ghost s2 = out@;
    push_md_blocks(out, files, ps, &c, depth + 1, maxp, source_url, base_available);
    let ghost s3 = out@;
    push_str(out, "</details>\n\n");
    proof {
        let a = md_dir_summary(name@, depth as nat, dir_agg(files@, pv, cv, files@.len()), base_available);
        let b = files_table(files@, direct_files(pv, cv, ps@.len()), source_url, base_available);
        let e = md_blocks(files@, pv, cv, child_names(pv, cv, ps@.len()), (depth + 1) as nat, source_url, base_available);
        assert(s1 == s0 + a);
        assert(s2 == s1 + b);
        assert(s3 == s2 + e);
        assert(out@ =~= s0 + (a + b + e + "</details>\n\n"@));
        assert(md_dir(files@, pv, vec_views(d@), name@, depth as nat, source_url, base_available) == a + b + e + "</details>\n\n"@);
    }
}


// ---------------------------------------------------------------------------
// The report.
// ---------------------------------------------------------------------------

pub open spec fn pr_link_line(files_changed_url: Option<&str>) -> Seq<char> {
    match files_changed_url {
        Some(u) => if navigation_url_error(u@, "Files changed URL"@) is None {
            "**Pull request:** "@ + md_link_text(u@, "Files changed and annotations"@) + "\n\n"@
        } else {
            seq![]
        },
        None => seq![],
    }
}

pub open spec fn md_total_row(comp: Comparison) -> Seq<char> {
    let h = counts_total(head_side(comp.files@));
    "| **Total** | "@ + pct_text(h.0 as nat, h.1 as nat) + " ("@ + dec(h.0 as nat) + "/"@ + dec(
        h.1 as nat,
    ) + ") | "@ + md_delta_text(comparison_delta(comp), comp.base_available) + " |\n"@
}

pub open spec fn md_changed_row(comp: Comparison) -> Seq<char> {
    let d = diff_total(comp.files@);
    "| **Changed lines** | "@ + diff_cell_text(d.1 as nat, d.0 as nat) + " | — |\n\n"@
}

pub open spec fn totals_table(comp: Comparison) -> Seq<char> {
    "| Scope | Coverage | Δ |\n"@ + "|---|---:|---:|\n"@ + md_total_row(comp) + md_changed_row(comp)
}

pub open spec fn tree_section(comp: Comparison, source_url: Option<&str>) -> Seq<char> {
    let files = comp.files@;
    let ps = path_parts(files);
    "## Coverage by path\n\n"@ + files_table(
        files,
        direct_files(ps, seq![], ps.len()),
        source_url,
        comp.base_available,
    ) + md_blocks(
        files,
        ps,
        seq![],
        child_names(ps, seq![], ps.len()),
        0,
        source_url,
        comp.base_available,
    )
}

/// The whole Markdown report.
pub open spec fn markdown_report(
    head: CoverageSnapshot,
    comp: Comparison,
    source_url: Option<&str>,
    files_changed_url: Option<&str>,
) -> Seq<char> {
    "# 🦡 Badgers Coverage Report\n\n"@ + "**Head:** "@ + code_path_text(
        short_sha_text(head.commit_sha@),
    ) + "\n\n"@ + pr_link_line(files_changed_url) + totals_table(comp) + changed_section(
        comp.files@,
        source_url,
    ) + tree_section(comp, source_url)
}

#[verifier::spinoff_prover]
#[verifier::rlimit(40)]
fn push_md_total_row(out: &mut Vec<char>, comparison: &Comparison)
    requires
        totals_fit(*comparison),
    ensures
        final(out)@ == old(out)@ + md_total_row(*comparison),
{
    let totals = comparison.head_totals();
    push_str(out, "| **Total** | ");
    crate::pct::push_pct(out, totals.covered, totals.executable);
    push_str(out, " (");
    push_dec(out, totals.covered);
    push_str(out, "/");
    push_dec(out, totals.executable);
    push_str(out, ") | ");
    let d = if comparison.base_available {
        let base = comparison.base_totals();
        if totals.executable > 0 && base.executable > 0 {
            Some((totals.covered, totals.executable, base.covered, base.executable))
        } else {
            None
        }
    } else {
        None
    };
    push_md_delta(out, d, comparison.base_available);
    push_str(out, " |\n");
    assert(final(out)@ =~= old(out)@ + md_total_row(*comparison));
}

fn push_totals_table(out: &mut Vec<char>, comparison: &Comparison)
    requires
        totals_fit(*comparison),
    ensures
        final(out)@ == old(out)@ + totals_table(*comparison),
{
    push_str(out, "| Scope | Coverage | Δ |\n");
    push_str(out, "|---|---:|---:|\n");
    push_md_total_row(out, comparison);
    let diff = comparison.diff_totals();
    push_str(out, "| **Changed lines** | ");
    push_diff_cell(out, diff.covered, diff.relevant);
    push_str(out, " | — |\n\n");
    assert(final(out)@ =~= old(out)@ + totals_table(*comparison));
}

/// The Markdown report of a comparison: head commit, optional pull-request
/// link, totals, changed lines per file, and the coverage tree by path.
pub fn render(
    head: &CoverageSnapshot,
    comparison: &Comparison,
    source_url: Option<&str>,
    files_changed_url: Option<&str>,
) -> (r: String)
    requires
        totals_fit(*comparison),
    ensures
        r@ == markdown_report(*head, *comparison, source_url, files_changed_url),
{
    let mut out: Vec<char> = Vec::new();
    push_str(&mut out, "# 🦡 Badgers Coverage Report\n\n");
    push_str(&mut out, "**Head:** ");
    let short = crate::report_github::short_sha(head.commit_sha.as_str());
    push_code_path(&mut out, short.as_str());
    push_str(&mut out, "\n\n");
    let ghost s0 = out@;
    match files_changed_url {
        Some(url) => {
            if validate_https_url(url, "Files changed URL").is_ok() {
                push_str(&mut out, "**Pull request:** ");
                let link = html_link(url, "Files changed and annotations");
                push_str(&mut out, link.as_str());
                push_str(&mut out, "\n\n");
            }
        },
        None => {},
    }
    assert(out@ =~= s0 + pr_link_line(files_changed_url));
    let ghost s1 = out@;
    push_totals_table(&mut out, comparison);
    let ghost s2 = out@;
    push_changed_section(&mut out, &comparison.files, source_url);
    let ghost s3 = out@;
    push_str(&mut out, "## Coverage by path\n\n");
    let ps = crate::dirtree::parts_of_files(&comparison.files);
    let maxp = crate::dirtree::max_parts_exec(&ps);
    proof {
        crate::dirtree::lemma_all_agg_totals(comparison.files@);
    }
    let root: Vec<Vec<char>> = Vec::new();
    assert(vec_views(root@) =~= seq![]);
    let direct = crate::dirtree::direct_files_exec(&ps, &root);
    proof {
        assert(parts_views(ps@).len() == comparison.files@.len());
    }
    push_files_table(&mut out, &comparison.files, &direct, source_url, comparison.base_available);
    push_md_blocks(&mut out, &comparison.files, &ps, &root, 0, maxp, source_url, comparison.base_available);
    assert(out@ =~= s3 + tree_section(*comparison, source_url));
    assert(out@ =~= markdown_report(*head, *comparison, source_url, files_changed_url));
    crate::text::string_of(&out)
}


/// Runs of consecutive line numbers, in order.
pub fn line_ranges(lines: &[u32]) -> (r: Vec<(u32, u32)>)
    ensures
        r@ == ranges_of(lines@),
{
    crate::report_github::line_number_ranges(lines)
}

/// Appends the changed-lines section.
pub fn render_changed_files(comparison: &Comparison, source_url: Option<&str>, out: &mut String)
    ensures
        final(out)@ == old(out)@ + changed_section(comparison.files@, source_url),
{
    let mut text: Vec<char> = Vec::new();
    push_changed_section(&mut text, &comparison.files, source_url);
    let s = crate::text::string_of(&text);
    out.append(s.as_str());
}

} // verus!
