//! Where durable HTML reports live in a GitHub repository branch, and the
//! checks on the names that locate them.
use vstd::prelude::*;

use crate::storage::Keys;
use crate::text::{
    chars_of, contains_seq, dec, ends_with, is_alnum, is_hex_digit, push_chars, push_dec,
    push_str, rsplit_once, split, starts_with, trim,
};

verus! {

pub const DEFAULT_STORAGE_BRANCH: &'static str = "badgers-coverage";

pub const DEFAULT_STORAGE_PREFIX: &'static str = "badgers";

pub const SHELL_INSTALL_COMMAND: &'static str = "curl --proto '=https' --tlsv1.2 -LsSf https://github.com/devgony/badgers/releases/latest/download/badgers-installer.sh | sh";

pub open spec fn is_dot_part(s: Seq<char>) -> bool {
    s == seq!['.'] || s == seq!['.', '.']
}

pub open spec fn repo_part_char(c: char) -> bool {
    is_alnum(c) || c == '_' || c == '.' || c == '-'
}

/// A non-empty owner or repository name of `[A-Za-z0-9_.-]`.
pub open spec fn valid_repo_part(s: Seq<char>) -> bool {
    s.len() > 0 && forall|i: int| 0 <= i < s.len() ==> repo_part_char(#[trigger] s[i])
}

/// `owner/repo` with valid parts, neither of them `.` or `..`.
pub open spec fn valid_repo_slug(v: Seq<char>) -> bool {
    let parts = split(v, '/');
    parts.len() == 2 && valid_repo_part(parts[0]) && valid_repo_part(parts[1]) && !is_dot_part(
        parts[0],
    ) && !is_dot_part(parts[1])
}

/// A character a Git branch name may not hold: ASCII control or white space,
/// or one of `\ ~ ^ : ? * [`.
pub open spec fn unsafe_branch_char(c: char) -> bool {
    c <= '\u{1f}' || c == '\u{7f}' || c == ' ' || c == '\u{c}' || c == '\\' || c == '~' || c
        == '^' || c == ':' || c == '?' || c == '*' || c == '['
}

/// A branch name Git accepts and that cannot be read as an option or path
/// trick.
pub open spec fn safe_branch(v: Seq<char>) -> bool {
    &&& v.len() > 0
    &&& !starts_with(v, seq!['-'])
    &&& !starts_with(v, seq!['/'])
    &&& !ends_with(v, seq!['/'])
    &&& !ends_with(v, seq!['.'])
    &&& !contains_seq(v, seq!['.', '.'])
    &&& !contains_seq(v, seq!['/', '/'])
    &&& !contains_seq(v, seq!['@', '{'])
    &&& forall|i: int|
        0 <= i < split(v, '/').len() ==> !ends_with(
            #[trigger] split(v, '/')[i],
            seq!['.', 'l', 'o', 'c', 'k'],
        )
    &&& forall|i: int| 0 <= i < v.len() ==> !unsafe_branch_char(#[trigger] v[i])
}

pub open spec fn trim_slashes(s: Seq<char>) -> Seq<char> {
    crate::storage::trim_slashes(s)
}

pub open spec fn has_control(v: Seq<char>) -> bool {
    exists|i: int| 0 <= i < v.len() && crate::text::is_control(#[trigger] v[i])
}

pub open spec fn bad_part(p: Seq<char>) -> bool {
    p.len() == 0 || is_dot_part(p)
}

pub open spec fn has_bad_part(parts: Seq<Seq<char>>) -> bool {
    exists|i: int| 0 <= i < parts.len() && bad_part(#[trigger] parts[i])
}

/// A storage prefix trimmed of `/`, `None` when it holds `\`, a control
/// character, or an empty, `.` or `..` component.
pub open spec fn normalized_prefix(v: Seq<char>) -> Option<Seq<char>> {
    if v.contains('\\') || has_control(v) {
        None
    } else {
        let n = trim_slashes(v);
        if n.len() > 0 && has_bad_part(split(n, '/')) {
            None
        } else {
            Some(n)
        }
    }
}

/// Exactly 40 ASCII hexadecimal characters.
pub open spec fn valid_sha(v: Seq<char>) -> bool {
    v.len() == 40 && forall|i: int| 0 <= i < v.len() ==> is_hex_digit(#[trigger] v[i])
}

pub open spec fn shell_safe_char(c: char) -> bool {
    is_alnum(c) || c == '_' || c == '-' || c == '.' || c == '/' || c == ':' || c == '@'
}

/// `'` written inside single quotes: `'\''`.
pub open spec fn quote_body(v: Seq<char>) -> Seq<char>
    decreases v.len(),
{
    if v.len() == 0 {
        seq![]
    } else {
        quote_body(v.drop_last()) + if v.last() == '\'' {
            seq!['\'', '\\', '\'', '\'']
        } else {
            seq![v.last()]
        }
    }
}

/// `v` as one shell word: as is when it is made of safe characters only,
/// else single-quoted.
pub open spec fn shell_quoted(v: Seq<char>) -> Seq<char> {
    if v.len() > 0 && forall|i: int| 0 <= i < v.len() ==> shell_safe_char(#[trigger] v[i]) {
        v
    } else {
        seq!['\''] + quote_body(v) + seq!['\'']
    }
}

/// `&`, `<`, `>` and `"` written as HTML entities.
pub open spec fn html_escaped(v: Seq<char>) -> Seq<char>
    decreases v.len(),
{
    if v.len() == 0 {
        seq![]
    } else {
        html_escaped(v.drop_last()) + {
            let c = v.last();
            if c == '&' {
                "&amp;"@
            } else if c == '<' {
                "&lt;"@
            } else if c == '>' {
                "&gt;"@
            } else if c == '"' {
                "&quot;"@
            } else {
                seq![c]
            }
        }
    }
}

fn all_chars_repo_part(s: &[char]) -> (r: bool)
    ensures
        r == valid_repo_part(s@),
{
    if s.len() == 0 {
        return false;
    }
    let mut i: usize = 0;
    while i < s.len()
        invariant
            i <= s@.len(),
            forall|j: int| 0 <= j < i ==> repo_part_char(#[trigger] s@[j]),
        decreases s@.len() - i,
    {
        let c = s[i];
        if !(crate::text::char_is_alnum(c) || c == '_' || c == '.' || c == '-') {
            return false;
        }
        i += 1;
    }
    true
}

fn dot_part(s: &[char]) -> (r: bool)
    ensures
        r == is_dot_part(s@),
{
    let one = s.len() == 1 && s[0] == '.';
    let two = s.len() == 2 && s[0] == '.' && s[1] == '.';
    proof {
        if s@.len() == 1 && s@[0] == '.' {
            assert(s@ =~= seq!['.']);
        }
        if s@.len() == 2 && s@[0] == '.' && s@[1] == '.' {
            assert(s@ =~= seq!['.', '.']);
        }
        if s@ == seq!['.'] {
            assert(s@.len() == 1);
        }
        if s@ == seq!['.', '.'] {
            assert(s@.len() == 2);
        }
    }
    one || two
}

fn is_valid_repo_slug(value: &str) -> (r: bool)
    ensures
        r == valid_repo_slug(value@),
{
    let cs = chars_of(value);
    let parts = crate::text::split_char(&cs, '/');
    assert(parts@.map_values(|v: Vec<char>| v@) == split(value@, '/'));
    if parts.len() != 2 {
        return false;
    }
    assert(parts@[0]@ == split(value@, '/')[0]);
    assert(parts@[1]@ == split(value@, '/')[1]);
    all_chars_repo_part(&parts[0]) && all_chars_repo_part(&parts[1]) && !dot_part(&parts[0])
        && !dot_part(&parts[1])
}

/// `owner/repo`, or the error `{label} must be owner/repo`.
pub fn validate_repo_slug(value: &str, label: &str) -> (r: Result<(), String>)
    ensures
        r is Ok <==> valid_repo_slug(value@),
        r matches Err(m) ==> m@ == label@ + " must be owner/repo"@,
{
    if is_valid_repo_slug(value) {
        Ok(())
    } else {
        let mut m = chars_of(label);
        push_str(&mut m, " must be owner/repo");
        Err(crate::text::string_of(&m))
    }
}

fn safe_branch_chars(v: &[char]) -> (r: bool)
    ensures
        r == forall|i: int| 0 <= i < v@.len() ==> !unsafe_branch_char(#[trigger] v@[i]),
{
    let mut i: usize = 0;
    while i < v.len()
        invariant
            i <= v@.len(),
            forall|j: int| 0 <= j < i ==> !unsafe_branch_char(#[trigger] v@[j]),
        decreases v@.len() - i,
    {
        let c = v[i];
        if c <= '\u{1f}' || c == '\u{7f}' || c == ' ' || c == '\u{c}' || c == '\\' || c == '~'
            || c == '^' || c == ':' || c == '?' || c == '*' || c == '[' {
            return false;
        }
        i += 1;
    }
    true
}

fn no_lock_part(v: &[char]) -> (r: bool)
    ensures
        r == forall|i: int|
            0 <= i < split(v@, '/').len() ==> !ends_with(
                #[trigger] split(v@, '/')[i],
                seq!['.', 'l', 'o', 'c', 'k'],
            ),
{
    let parts = crate::text::split_char(v, '/');
    let ghost pv = parts@.map_values(|p: Vec<char>| p@);
    assert(pv == split(v@, '/'));
    let lock = chars_of(".lock");
    proof {
        reveal_strlit(".lock");
        assert(lock@ =~= seq!['.', 'l', 'o', 'c', 'k']);
    }
    let mut i: usize = 0;
    while i < parts.len()
        invariant
            i <= parts@.len(),
            pv == parts@.map_values(|p: Vec<char>| p@),
            pv == split(v@, '/'),
            lock@ == seq!['.', 'l', 'o', 'c', 'k'],
            forall|j: int| 0 <= j < i ==> !ends_with(#[trigger] pv[j], lock@),
        decreases parts@.len() - i,
    {
        if crate::text::has_suffix(&parts[i], &lock) {
            assert(ends_with(pv[i as int], lock@));
            return false;
        }
        i += 1;
    }
    true
}

fn is_safe_branch(value: &str) -> (r: bool)
    ensures
        r == safe_branch(value@),
{
    let v = chars_of(value);
    if v.len() == 0 {
        return false;
    }
    let dash = chars_of("-");
    let slash = chars_of("/");
    let dot = chars_of(".");
    let dots = chars_of("..");
    let slashes = chars_of("//");
    let at_brace = chars_of("@{");
    proof {
        reveal_strlit("-");
        reveal_strlit("/");
        reveal_strlit(".");
        reveal_strlit("..");
        reveal_strlit("//");
        reveal_strlit("@{");
        assert(dash@ =~= seq!['-']);
        assert(slash@ =~= seq!['/']);
        assert(dot@ =~= seq!['.']);
        assert(dots@ =~= seq!['.', '.']);
        assert(slashes@ =~= seq!['/', '/']);
        assert(at_brace@ =~= seq!['@', '{']);
    }
    !crate::text::has_prefix(&v, &dash) && !crate::text::has_prefix(&v, &slash)
        && !crate::text::has_suffix(&v, &slash) && !crate::text::has_suffix(&v, &dot)
        && !crate::text::contains_chars(&v, &dots) && !crate::text::contains_chars(&v, &slashes)
        && !crate::text::contains_chars(&v, &at_brace) && no_lock_part(&v) && safe_branch_chars(&v)
}

/// A safe Git branch name, or `storage branch is not a safe Git branch name`.
pub fn validate_branch(value: &str) -> (r: Result<(), String>)
    ensures
        r is Ok <==> safe_branch(value@),
        r matches Err(m) ==> m@ == "storage branch is not a safe Git branch name"@,
{
    if is_safe_branch(value) {
        Ok(())
    } else {
        Err("storage branch is not a safe Git branch name".to_owned())
    }
}

/// The prefix trimmed of `/`, or `storage prefix is unsafe`.
pub fn normalize_prefix(value: &str) -> (r: Result<String, String>)
    ensures
        match normalized_prefix(value@) {
            Some(n) => r matches Ok(p) && p@ == n,
            None => r matches Err(m) && m@ == "storage prefix is unsafe"@,
        },
{
    let v = chars_of(value);
    let mut i: usize = 0;
    while i < v.len()
        invariant
            i <= v@.len(),
            v@ == value@,
            forall|j: int| 0 <= j < i ==> v@[j] != '\\' && !crate::text::is_control(#[trigger] v@[j]),
        decreases v@.len() - i,
    {
        if v[i] == '\\' || crate::text::char_is_control(v[i]) {
            assert(v@[i as int] == '\\' ==> v@.contains('\\'));
            assert(crate::text::is_control(v@[i as int]) ==> has_control(v@));
            return Err("storage prefix is unsafe".to_owned());
        }
        i += 1;
    }
    assert(!v@.contains('\\'));
    assert(!has_control(v@));
    let n = crate::storage::trim_slash_chars_pub(&v);
    if n.len() > 0 {
        let parts = crate::text::split_char(&n, '/');
        let ghost pv = parts@.map_values(|p: Vec<char>| p@);
        assert(pv == split(n@, '/'));
        let mut k: usize = 0;
        while k < parts.len()
            invariant
                k <= parts@.len(),
                v@ == value@,
                n@ == trim_slashes(v@),
                n@.len() > 0,
                !v@.contains('\\'),
                !has_control(v@),
                pv == parts@.map_values(|p: Vec<char>| p@),
                pv == split(n@, '/'),
                forall|j: int| 0 <= j < k ==> !bad_part(#[trigger] pv[j]),
            decreases parts@.len() - k,
        {
            assert(pv[k as int] == parts@[k as int]@);
            if parts[k].len() == 0 || dot_part(&parts[k]) {
                assert(bad_part(pv[k as int]));
                assert(has_bad_part(split(n@, '/')));
                return Err("storage prefix is unsafe".to_owned());
            }
            k += 1;
        }
    }
    Ok(crate::text::string_of(&n))
}

/// Exactly 40 ASCII hexadecimal characters, or the error saying so.
pub fn validate_sha(value: &str) -> (r: Result<(), String>)
    ensures
        r is Ok <==> valid_sha(value@),
        r matches Err(m) ==> m@ == "commit SHA must be exactly 40 ASCII hexadecimal characters"@,
{
    let v = chars_of(value);
    let mut ok = v.len() == 40;
    let mut i: usize = 0;
    while i < v.len()
        invariant
            i <= v@.len(),
            ok == (v@.len() == 40 && forall|j: int| 0 <= j < i ==> is_hex_digit(#[trigger] v@[j])),
        decreases v@.len() - i,
    {
        if !crate::text::char_is_hex_digit(v[i]) {
            ok = false;
        }
        i += 1;
    }
    if ok {
        Ok(())
    } else {
        Err("commit SHA must be exactly 40 ASCII hexadecimal characters".to_owned())
    }
}

/// One shell word for `value`.
pub fn shell_quote(value: &str) -> (r: String)
    ensures
        r@ == shell_quoted(value@),
{
    let v = chars_of(value);
    let mut safe = v.len() > 0;
    let mut i: usize = 0;
    while i < v.len()
        invariant
            i <= v@.len(),
            safe == (v@.len() > 0 && forall|j: int| 0 <= j < i ==> shell_safe_char(#[trigger] v@[j])),
        decreases v@.len() - i,
    {
        let c = v[i];
        if !(crate::text::char_is_alnum(c) || c == '_' || c == '-' || c == '.' || c == '/' || c
            == ':' || c == '@') {
            safe = false;
        }
        i += 1;
    }
    if safe {
        return value.to_owned();
    }
    let mut out: Vec<char> = Vec::new();
    out.push('\'');
    let mut k: usize = 0;
    while k < v.len()
        invariant
            k <= v@.len(),
            out@ == seq!['\''] + quote_body(v@.take(k as int)),
        decreases v@.len() - k,
    {
        assert(v@.take(k + 1).drop_last() =~= v@.take(k as int));
        if v[k] == '\'' {
            out.push('\'');
            out.push('\\');
            out.push('\'');
            out.push('\'');
        } else {
            out.push(v[k]);
        }
        k += 1;
        assert(out@ =~= seq!['\''] + quote_body(v@.take(k as int)));
    }
    assert(v@.take(k as int) =~= v@);
    out.push('\'');
    crate::text::string_of(&out)
}

/// Appends `v` with `&`, `<`, `>` and `"` as HTML entities.
pub fn push_html_escaped(out: &mut Vec<char>, v: &[char])
    ensures
        final(out)@ == old(out)@ + html_escaped(v@),
{
    let ghost start = out@;
    let mut k: usize = 0;
    while k < v.len()
        invariant
            k <= v@.len(),
            out@ == start + html_escaped(v@.take(k as int)),
        decreases v@.len() - k,
    {
        assert(v@.take(k + 1).drop_last() =~= v@.take(k as int));
        let c = v[k];
        let ghost before = out@;
        if c == '&' {
            push_str(out, "&amp;");
        } else if c == '<' {
            push_str(out, "&lt;");
        } else if c == '>' {
            push_str(out, "&gt;");
        } else if c == '"' {
            push_str(out, "&quot;");
        } else {
            out.push(c);
        }
        k += 1;
        assert(out@ =~= start + html_escaped(v@.take(k as int)));
    }
    assert(v@.take(k as int) =~= v@);
}

/// `value` with `&`, `<`, `>` and `"` as HTML entities.
pub fn html_escape(value: &str) -> (r: String)
    ensures
        r@ == html_escaped(value@),
{
    let v = chars_of(value);
    let mut out: Vec<char> = Vec::new();
    push_html_escaped(&mut out, &v);
    crate::text::string_of(&out)
}

/// `s` without any number of trailing `suffix`es.
pub open spec fn strip_suffixes(s: Seq<char>, suffix: Seq<char>) -> Seq<char>
    decreases s.len(),
{
    if suffix.len() > 0 && ends_with(s, suffix) {
        strip_suffixes(s.take(s.len() - suffix.len()), suffix)
    } else {
        s
    }
}

pub open spec fn strip_leading_slashes(s: Seq<char>) -> Seq<char> {
    crate::storage::trim_slashes_start(s)
}

/// The last two `/`-separated parts of a Git remote URL after any `host:`,
/// without trailing `.git`: the owner and the name.
pub open spec fn owner_name_of(url: Seq<char>) -> Option<(Seq<char>, Seq<char>)> {
    let trimmed = strip_suffixes(trim(url), ".git"@);
    let tail = match rsplit_once(trimmed, ':') {
        Some((_, t)) => t,
        None => trimmed,
    };
    let segments = split(strip_leading_slashes(tail), '/');
    if segments.len() < 2 {
        None
    } else {
        Some((segments[segments.len() - 2], segments.last()))
    }
}

/// The `owner/repo` a Git remote URL names, when it is a valid slug.
pub open spec fn repo_of_url(url: Seq<char>) -> Option<Seq<char>> {
    match owner_name_of(url) {
        Some((owner, name)) => {
            let repo = owner + seq!['/'] + name;
            if valid_repo_slug(repo) {
                Some(repo)
            } else {
                None
            }
        },
        None => None,
    }
}

/// The owner and name parts of a Git remote URL.
pub fn remote_owner_name(url: &str) -> (r: Option<(Vec<char>, Vec<char>)>)
    ensures
        match owner_name_of(url@) {
            Some((o, n)) => r matches Some((ro, rn)) && ro@ == o && rn@ == n,
            None => r is None,
        },
{
    let cs = chars_of(url);
    let mut t = crate::text::trim_chars(&cs);
    let git = chars_of(".git");
    proof {
        reveal_strlit(".git");
        assert(git@.len() == 4);
    }
    let ghost t0 = t@;
    while git.len() > 0 && crate::text::has_suffix(&t, &git)
        invariant
            git@ == ".git"@,
            git@.len() == 4,
            strip_suffixes(t0, ".git"@) == strip_suffixes(t@, ".git"@),
        decreases t@.len(),
    {
        let end = t.len() - git.len();
        let ghost before = t@;
        t = crate::text::slice_of(&t, 0, end);
        assert(t@ =~= before.take(before.len() - 4));
        assert(crate::text::ends_with(before, ".git"@));
    }
    assert(strip_suffixes(t@, ".git"@) == t@);
    assert(t@ == strip_suffixes(trim(url@), ".git"@));
    let tail = match crate::text::rsplit_once_char(&t, ':') {
        Some((_, tl)) => tl,
        None => t,
    };
    assert(tail@ == match rsplit_once(t@, ':') {
        Some((_, tl)) => tl,
        None => t@,
    });
    let stripped = crate::storage::trim_slashes_start_pub(&tail);
    let segments = crate::text::split_char(&stripped, '/');
    assert(segments@.map_values(|v: Vec<char>| v@) == split(stripped@, '/'));
    let ghost sv = segments@.map_values(|v: Vec<char>| v@);
    if segments.len() < 2 {
        return None;
    }
    assert(sv[sv.len() - 2] == segments@[segments@.len() - 2]@);
    assert(sv.last() == segments@[segments@.len() - 1]@);
    let owner = crate::text::slice_of(&segments[segments.len() - 2], 0, segments[segments.len() - 2].len());
    let name = crate::text::slice_of(&segments[segments.len() - 1], 0, segments[segments.len() - 1].len());
    assert(owner@ =~= sv[sv.len() - 2]);
    assert(name@ =~= sv.last());
    Some((owner, name))
}

/// The `owner/repo` of a Git remote URL, if it names one.
pub fn parse_repo_url(url: &str) -> (r: Option<String>)
    ensures
        match repo_of_url(url@) {
            Some(repo) => r matches Some(s) && s@ == repo,
            None => r is None,
        },
{
    match remote_owner_name(url) {
        Some((owner, name)) => {
            let mut repo: Vec<char> = Vec::new();
            push_chars(&mut repo, &owner);
            repo.push('/');
            push_chars(&mut repo, &name);
            let s = crate::text::string_of(&repo);
            assert(s@ =~= owner@ + seq!['/'] + name@);
            if is_valid_repo_slug(s.as_str()) {
                Some(s)
            } else {
                None
            }
        },
        None => None,
    }
}

/// The repository a report is about, and its local `origin` remote when that
/// remote names the same repository.
#[derive(Debug, PartialEq, Eq)]
pub struct SourceRepository {
    pub slug: String,
    pub origin_url: Option<String>,
}

/// The repository named explicitly, else by a non-empty
/// `GITHUB_REPOSITORY`, else by the `origin` remote; `None` when none of
/// them names one (then GitHub CLI is asked).
pub open spec fn source_slug_of(
    explicit: Option<Seq<char>>,
    env_repo: Option<Seq<char>>,
    origin_url: Option<Seq<char>>,
) -> Option<Seq<char>> {
    match explicit {
        Some(r) => Some(r),
        None => match env_repo {
            Some(r) if r.len() > 0 => Some(r),
            _ => match origin_url {
                Some(u) => repo_of_url(u),
                None => None,
            },
        },
    }
}

/// Picks the source repository's slug from what the command was given and
/// what the environment holds.
pub fn pick_source_slug(explicit: Option<&str>, env_repo: Option<&str>, origin_url: Option<&str>) -> (r:
    Option<String>)
    ensures
        match source_slug_of(
            match explicit {
                Some(e) => Some(e@),
                None => None,
            },
            match env_repo {
                Some(e) => Some(e@),
                None => None,
            },
            match origin_url {
                Some(u) => Some(u@),
                None => None,
            },
        ) {
            Some(slug) => r matches Some(s) && s@ == slug,
            None => r is None,
        },
{
    if let Some(e) = explicit {
        return Some(crate::text::string_of(&chars_of(e)));
    }
    if let Some(e) = env_repo {
        if !e.is_empty() {
            return Some(crate::text::string_of(&chars_of(e)));
        }
    }
    match origin_url {
        Some(u) => parse_repo_url(u),
        None => None,
    }
}

/// The source repository `slug`, which must be `owner/repo`; the `origin`
/// remote is kept only when it names the same repository.
pub fn source_repository(slug: &str, origin_url: Option<&str>) -> (r: Result<SourceRepository, String>)
    ensures
        r is Ok <==> valid_repo_slug(slug@),
        r matches Err(m) ==> m@ == "source repository must be owner/repo"@,
        r matches Ok(src) ==> src.slug@ == slug@ && match origin_url {
            Some(u) => if repo_of_url(u@) == Some(slug@) {
                src.origin_url matches Some(o) && o@ == u@
            } else {
                src.origin_url is None
            },
            None => src.origin_url is None,
        },
{
    match validate_repo_slug(slug, "source repository") {
        Err(m) => {
            proof {
                reveal_strlit("source repository");
                reveal_strlit(" must be owner/repo");
                reveal_strlit("source repository must be owner/repo");
            }
            assert(m@ =~= "source repository must be owner/repo"@);
            return Err(m);
        },
        Ok(()) => {},
    }
    let origin = match origin_url {
        Some(u) => match parse_repo_url(u) {
            Some(repo) => {
                let rc = chars_of(repo.as_str());
                let sc = chars_of(slug);
                if crate::text::seq_eq(&rc, &sc) {
                    Some(crate::text::string_of(&chars_of(u)))
                } else {
                    None
                }
            },
            None => None,
        },
        None => None,
    };
    Ok(SourceRepository { slug: crate::text::string_of(&chars_of(slug)), origin_url: origin })
}

/// A repository branch and path prefix that hold durable reports.
#[derive(Debug, Clone, PartialEq, Eq)]
pub struct GithubReportLocation {
    pub source_repo: String,
    pub storage_repo: String,
    pub storage_branch: String,
    pub storage_prefix: String,
}

impl GithubReportLocation {
    /// Validates both repositories, the branch and the prefix, in that order;
    /// the prefix is kept trimmed of `/`.
    pub fn new(source_repo: &str, storage_repo: &str, storage_branch: &str, storage_prefix: &str) -> (r: Result<Self, String>)
        ensures
            r is Ok <==> (valid_repo_slug(source_repo@) && valid_repo_slug(storage_repo@)
                && safe_branch(storage_branch@) && normalized_prefix(storage_prefix@) is Some),
            r matches Ok(loc) ==> loc.source_repo@ == source_repo@ && loc.storage_repo@
                == storage_repo@ && loc.storage_branch@ == storage_branch@ && Some(loc.storage_prefix@)
                == normalized_prefix(storage_prefix@),
            r matches Err(m) ==> m@ == (if !valid_repo_slug(source_repo@) {
                "source repository"@ + " must be owner/repo"@
            } else if !valid_repo_slug(storage_repo@) {
                "storage repository"@ + " must be owner/repo"@
            } else if !safe_branch(storage_branch@) {
                "storage branch is not a safe Git branch name"@
            } else {
                "storage prefix is unsafe"@
            }),
    {
        match validate_repo_slug(source_repo, "source repository") {
            Ok(()) => {},
            Err(m) => {
                return Err(m);
            },
        }
        match validate_repo_slug(storage_repo, "storage repository") {
            Ok(()) => {},
            Err(m) => {
                return Err(m);
            },
        }
        match validate_branch(storage_branch) {
            Ok(()) => {},
            Err(m) => {
                return Err(m);
            },
        }
        let prefix = match normalize_prefix(storage_prefix) {
            Ok(p) => p,
            Err(m) => {
                return Err(m);
            },
        };
        Ok(
            GithubReportLocation {
                source_repo: source_repo.to_owned(),
                storage_repo: storage_repo.to_owned(),
                storage_branch: storage_branch.to_owned(),
                storage_prefix: prefix,
            },
        )
    }

    /// The key layout of this location.
    pub open spec fn keys_root(self) -> Seq<char> {
        if trim_slashes(self.storage_prefix@).len() == 0 {
            "repos/"@ + trim_slashes(self.source_repo@)
        } else {
            trim_slashes(self.storage_prefix@) + "/repos/"@ + trim_slashes(self.source_repo@)
        }
    }

    /// `{root}/prs/{pr}/latest.json` under this location's prefix.
    pub fn pr_pointer_path(&self, pr: u64) -> (r: String)
        ensures
            r@ == self.keys_root() + "/prs/"@ + dec(pr as nat) + "/latest.json"@,
    {
        Keys::new(self.storage_prefix.as_str(), self.source_repo.as_str()).pr_pointer(pr)
    }

    /// `{root}/commits/{sha}/html` for a valid SHA.
    pub fn html_prefix(&self, sha: &str) -> (r: Result<String, String>)
        ensures
            r is Ok <==> valid_sha(sha@),
            r matches Ok(p) ==> p@ == self.keys_root() + "/commits/"@ + sha@ + "/html"@,
            r matches Err(m) ==> m@ == "commit SHA must be exactly 40 ASCII hexadecimal characters"@,
    {
        match validate_sha(sha) {
            Ok(()) => Ok(
                Keys::new(self.storage_prefix.as_str(), self.source_repo.as_str()).commit_html_prefix(
                    sha,
                ),
            ),
            Err(m) => Err(m),
        }
    }

    /// `{root}/commits/{sha}/comparison.json.zst` for a valid SHA.
    pub fn comparison_path(&self, sha: &str) -> (r: Result<String, String>)
        ensures
            r is Ok <==> valid_sha(sha@),
            r matches Ok(p) ==> p@ == self.keys_root() + "/commits/"@ + sha@
                + "/comparison.json.zst"@,
            r matches Err(m) ==> m@ == "commit SHA must be exactly 40 ASCII hexadecimal characters"@,
    {
        match validate_sha(sha) {
            Ok(()) => Ok(
                Keys::new(self.storage_prefix.as_str(), self.source_repo.as_str()).commit_comparison(
                    sha,
                ),
            ),
            Err(m) => Err(m),
        }
    }

    /// `{html prefix}/index.html` for a valid SHA.
    pub fn html_index_path(&self, sha: &str) -> (r: Result<String, String>)
        ensures
            r is Ok <==> valid_sha(sha@),
            r matches Ok(p) ==> p@ == self.keys_root() + "/commits/"@ + sha@ + "/html"@
                + "/index.html"@,
    {
        match self.html_prefix(sha) {
            Ok(p) => {
                let mut out = chars_of(p.as_str());
                push_str(&mut out, "/index.html");
                Ok(crate::text::string_of(&out))
            },
            Err(m) => Err(m),
        }
    }

    /// `{storage repo}@{storage branch}:{html index path}` for a valid SHA.
    pub fn report_spec(&self, sha: &str) -> (r: Result<String, String>)
        ensures
            r is Ok <==> valid_sha(sha@),
            r matches Ok(p) ==> p@ == self.storage_repo@ + "@"@ + self.storage_branch@ + ":"@
                + self.keys_root() + "/commits/"@ + sha@ + "/html"@ + "/index.html"@,
    {
        match self.html_index_path(sha) {
            Ok(index) => {
                let mut out = chars_of(self.storage_repo.as_str());
                push_str(&mut out, "@");
                push_str(&mut out, self.storage_branch.as_str());
                push_str(&mut out, ":");
                push_str(&mut out, index.as_str());
                Ok(crate::text::string_of(&out))
            },
            Err(m) => Err(m),
        }
    }

    /// The command that opens this location's report of a pull request.
    pub open spec fn view_command_text(self, pr: u64, binary: Seq<char>) -> Seq<char> {
        binary + " view "@ + dec(pr as nat) + " --repo "@ + shell_quoted(self.source_repo@)
            + " --storage-repo "@ + shell_quoted(self.storage_repo@) + (if self.storage_branch@
            != DEFAULT_STORAGE_BRANCH@ {
            " --storage-branch "@ + shell_quoted(self.storage_branch@)
        } else {
            seq![]
        }) + (if self.storage_prefix@ != DEFAULT_STORAGE_PREFIX@ {
            " --storage-prefix "@ + shell_quoted(self.storage_prefix@)
        } else {
            seq![]
        })
    }

    pub fn view_command_with_binary(&self, pr: u64, binary: &str) -> (r: String)
        ensures
            r@ == self.view_command_text(pr, binary@),
    {
        let mut out = chars_of(binary);
        push_str(&mut out, " view ");
        push_dec(&mut out, pr);
        push_str(&mut out, " --repo ");
        push_str(&mut out, shell_quote(self.source_repo.as_str()).as_str());
        push_str(&mut out, " --storage-repo ");
        push_str(&mut out, shell_quote(self.storage_repo.as_str()).as_str());
        let ghost base = out@;
        let branch = chars_of(self.storage_branch.as_str());
        if !crate::text::eq_str(&branch, DEFAULT_STORAGE_BRANCH) {
            push_str(&mut out, " --storage-branch ");
            push_str(&mut out, shell_quote(self.storage_branch.as_str()).as_str());
        }
        let ghost mid = out@;
        let prefix = chars_of(self.storage_prefix.as_str());
        if !crate::text::eq_str(&prefix, DEFAULT_STORAGE_PREFIX) {
            push_str(&mut out, " --storage-prefix ");
            push_str(&mut out, shell_quote(self.storage_prefix.as_str()).as_str());
        }
        assert(out@ =~= self.view_command_text(pr, binary@));
        crate::text::string_of(&out)
    }

    /// The view command with the `badgers` binary on the path.
    pub fn view_command(&self, pr: u64) -> (r: String)
        ensures
            r@ == self.view_command_text(pr, "badgers"@),
    {
        self.view_command_with_binary(pr, "badgers")
    }

    /// Checks the HTML bundle a pull request's pointer records: it must be
    /// there, and be the bundle path of the pointer's commit.
    pub fn check_html_prefix(&self, sha: &str, html_prefix: Option<&str>) -> (r: Result<(), String>)
        ensures
            match html_prefix {
                None => r matches Err(m) && m@
                    == "the latest PR report does not contain an HTML bundle"@,
                Some(p) => if !valid_sha(sha@) {
                    r matches Err(m) && m@
                        == "commit SHA must be exactly 40 ASCII hexadecimal characters"@
                } else if p@ != self.keys_root() + "/commits/"@ + sha@ + "/html"@ {
                    r matches Err(m) && m@ == "PR pointer HTML path does not match commit "@ + sha@
                } else {
                    r is Ok
                },
            },
    {
        let p = match html_prefix {
            None => {
                return Err(
                    crate::text::string_of(
                        &chars_of("the latest PR report does not contain an HTML bundle"),
                    ),
                );
            },
            Some(p) => p,
        };
        let expected = match self.html_prefix(sha) {
            Ok(e) => e,
            Err(m) => return Err(m),
        };
        let pc = chars_of(p);
        if !crate::text::eq_str(&pc, expected.as_str()) {
            let mut m: Vec<char> = Vec::new();
            push_str(&mut m, "PR pointer HTML path does not match commit ");
            push_str(&mut m, sha);
            return Err(crate::text::string_of(&m));
        }
        Ok(())
    }

    /// The `origin` remote to clone the storage branch from: only when the
    /// reports are stored in the source repository itself.
    pub fn clone_origin<'a>(&self, origin_url: Option<&'a str>) -> (r: Option<&'a str>)
        ensures
            r == (if self.storage_repo@ == self.source_repo@ {
                origin_url
            } else {
                None
            }),
    {
        let a = chars_of(self.storage_repo.as_str());
        let b = chars_of(self.source_repo.as_str());
        if crate::text::seq_eq(&a, &b) {
            origin_url
        } else {
            None
        }
    }

    /// The view command with the binary the installer puts in `~/.local/bin`.
    pub fn installed_view_command(&self, pr: u64) -> (r: String)
        ensures
            r@ == self.view_command_text(pr, "~/.local/bin/badgers"@),
    {
        self.view_command_with_binary(pr, "~/.local/bin/badgers")
    }
}


/// A pull request's pointer must have the current schema, belong to the
/// pull request and name a full commit SHA.
pub fn check_pr_pointer(pointer: &crate::storage::BranchPointer, pr: u64) -> (r: Result<(), String>)
    ensures
        r is Ok <==> (pointer.schema_version == crate::storage::POINTER_SCHEMA_VERSION
            && pointer.branch@ == "pr-"@ + dec(pr as nat) && valid_sha(pointer.commit_sha@)),
        pointer.schema_version != crate::storage::POINTER_SCHEMA_VERSION ==> (r matches Err(m)
            && m@ == "unsupported PR pointer schema version "@ + dec(pointer.schema_version as nat)),
        pointer.schema_version == crate::storage::POINTER_SCHEMA_VERSION && pointer.branch@ != "pr-"@
            + dec(pr as nat) ==> (r matches Err(m) && m@ == "pointer belongs to "@ + pointer.branch@
            + ", not PR #"@ + dec(pr as nat)),
        pointer.schema_version == crate::storage::POINTER_SCHEMA_VERSION && pointer.branch@ == "pr-"@
            + dec(pr as nat) && !valid_sha(pointer.commit_sha@) ==> (r matches Err(m) && m@
            == "commit SHA must be exactly 40 ASCII hexadecimal characters"@),
{
    if pointer.schema_version != crate::storage::POINTER_SCHEMA_VERSION {
        let mut m: Vec<char> = Vec::new();
        push_str(&mut m, "unsupported PR pointer schema version ");
        push_dec(&mut m, pointer.schema_version as u64);
        return Err(crate::text::string_of(&m));
    }
    let mut expected: Vec<char> = Vec::new();
    push_str(&mut expected, "pr-");
    push_dec(&mut expected, pr);
    let branch = chars_of(pointer.branch.as_str());
    if !crate::text::seq_eq(&branch, &expected) {
        let mut m: Vec<char> = Vec::new();
        push_str(&mut m, "pointer belongs to ");
        push_str(&mut m, pointer.branch.as_str());
        push_str(&mut m, ", not PR #");
        push_dec(&mut m, pr);
        return Err(crate::text::string_of(&m));
    }
    validate_sha(pointer.commit_sha.as_str())
}

/// The `/`-separated components of a stored key, which must not be empty.
pub fn key_components(key: &str) -> (r: Result<Vec<String>, String>)
    ensures
        key@.len() == 0 <==> r is Err,
        r matches Err(m) ==> m@ == "stored report path is empty"@,
        r matches Ok(parts) ==> parts@.len() == split(key@, '/').len() && forall|i: int|
            0 <= i < parts@.len() ==> (#[trigger] parts@[i])@ == split(key@, '/')[i],
{
    if key.is_empty() {
        return Err(crate::text::string_of(&chars_of("stored report path is empty")));
    }
    let cs = chars_of(key);
    let parts = crate::text::split_char(&cs, '/');
    let mut out: Vec<String> = Vec::new();
    let mut i: usize = 0;
    while i < parts.len()
        invariant
            i <= parts@.len(),
            parts@.map_values(|v: Vec<char>| v@) == split(key@, '/'),
            out@.len() == i,
            forall|j: int| 0 <= j < i ==> (#[trigger] out@[j])@ == split(key@, '/')[j],
        decreases parts@.len() - i,
    {
        assert(parts@.map_values(|v: Vec<char>| v@)[i as int] == parts@[i as int]@);
        out.push(crate::text::string_of(&parts[i]));
        i += 1;
    }
    Ok(out)
}

/// A component of a stored key may not be empty, `.` or `..`, or hold a
/// backslash.
pub open spec fn safe_key_component(c: Seq<char>) -> bool {
    c.len() > 0 && !is_dot_part(c) && !c.contains('\\')
}

/// Refuses a stored key whose component is not safe to write as a path.
pub fn check_key_component(key: &str, component: &str) -> (r: Result<(), String>)
    ensures
        r is Ok <==> safe_key_component(component@),
        r matches Err(m) ==> m@ == "stored report contains an unsafe path: "@ + key@,
{
    let cs = chars_of(component);
    let dot = chars_of(".");
    let dotdot = chars_of("..");
    proof {
        reveal_strlit(".");
        reveal_strlit("..");
        assert(dot@ =~= seq!['.']);
        assert(dotdot@ =~= seq!['.', '.']);
    }
    if cs.len() == 0 || crate::text::seq_eq(&cs, &dot) || crate::text::seq_eq(&cs, &dotdot)
        || crate::text::contains_char(&cs, '\\') {
        let mut m: Vec<char> = Vec::new();
        push_str(&mut m, "stored report contains an unsafe path: ");
        push_str(&mut m, key);
        return Err(crate::text::string_of(&m));
    }
    Ok(())
}

/// A file name in a stored HTML report: not empty, `.` or `..`, and without
/// `/` or a backslash.
pub open spec fn safe_report_filename(name: Seq<char>) -> bool {
    name.len() > 0 && !is_dot_part(name) && !name.contains('/') && !name.contains('\\')
}

/// Refuses a file name of a stored HTML report that could leave the
/// directory it is copied into.
pub fn check_report_filename(name: &str) -> (r: Result<(), String>)
    ensures
        r is Ok <==> safe_report_filename(name@),
        r matches Err(m) ==> m@ == "stored HTML report contains an unsafe filename"@,
{
    let cs = chars_of(name);
    let dot = chars_of(".");
    let dotdot = chars_of("..");
    proof {
        reveal_strlit(".");
        reveal_strlit("..");
        assert(dot@ =~= seq!['.']);
        assert(dotdot@ =~= seq!['.', '.']);
    }
    if cs.len() == 0 || crate::text::seq_eq(&cs, &dot) || crate::text::seq_eq(&cs, &dotdot)
        || crate::text::contains_char(&cs, '/') || crate::text::contains_char(&cs, '\\') {
        return Err(crate::text::string_of(&chars_of("stored HTML report contains an unsafe filename")));
    }
    Ok(())
}

} // verus!
