//! Reading the coverage.py version from its `--version` output.
use vstd::prelude::*;

use crate::text::{chars_of, is_digit, is_whitespace, parse_unsigned, push_str, split};

verus! {

/// The words of `s`, split at white space (`str::split_whitespace`), as the
/// finished words and the word in progress after reading `s` left to right.
pub open spec fn words_acc(s: Seq<char>) -> (Seq<Seq<char>>, Seq<char>)
    decreases s.len(),
{
    if s.len() == 0 {
        (seq![], seq![])
    } else {
        let (ws, cur) = words_acc(s.drop_last());
        if is_whitespace(s.last()) {
            if cur.len() > 0 {
                (ws.push(cur), seq![])
            } else {
                (ws, seq![])
            }
        } else {
            (ws, cur.push(s.last()))
        }
    }
}

/// `str::split_whitespace`: the non-empty runs of non-white-space characters.
pub open spec fn words(s: Seq<char>) -> Seq<Seq<char>> {
    let (ws, cur) = words_acc(s);
    if cur.len() > 0 {
        ws.push(cur)
    } else {
        ws
    }
}

pub open spec fn version_char(c: char) -> bool {
    is_digit(c) || c == '.'
}

/// `s` without leading characters other than digits and `.`.
pub open spec fn trim_start_version(s: Seq<char>) -> Seq<char>
    decreases s.len(),
{
    if s.len() > 0 && !version_char(s[0]) {
        trim_start_version(s.drop_first())
    } else {
        s
    }
}

/// `s` without trailing characters other than digits and `.`.
pub open spec fn trim_end_version(s: Seq<char>) -> Seq<char>
    decreases s.len(),
{
    if s.len() > 0 && !version_char(s.last()) {
        trim_end_version(s.drop_last())
    } else {
        s
    }
}

pub open spec fn version_token(w: Seq<char>) -> Seq<char> {
    trim_end_version(trim_start_version(w))
}

/// The first word that, trimmed to digits and dots, starts with a digit and
/// holds a dot: its first two dotted parts as numbers, and the trimmed word.
/// `None` when there is no such word or its parts are not numbers.
pub open spec fn version_in(ws: Seq<Seq<char>>) -> Option<(u32, u32, Seq<char>)>
    decreases ws.len(),
{
    if ws.len() == 0 {
        None
    } else {
        let t = version_token(ws[0]);
        if t.len() > 0 && is_digit(t[0]) && t.contains('.') {
            let parts = split(t, '.');
            match (parse_unsigned(parts[0], u32::MAX as nat), parse_unsigned(parts[1], u32::MAX as nat)) {
                (Some(major), Some(minor)) => Some((major as u32, minor as u32, t)),
                _ => None,
            }
        } else {
            version_in(ws.drop_first())
        }
    }
}

fn words_exec(s: &[char]) -> (r: Vec<Vec<char>>)
    ensures
        r@.len() == words(s@).len(),
        forall|i: int| 0 <= i < r@.len() ==> (#[trigger] r@[i])@ == words(s@)[i],
{
    let mut ws: Vec<Vec<char>> = Vec::new();
    let mut cur: Vec<char> = Vec::new();
    let mut i: usize = 0;
    while i < s.len()
        invariant
            i <= s@.len(),
            ws@.len() == words_acc(s@.take(i as int)).0.len(),
            forall|j: int| 0 <= j < ws@.len() ==> (#[trigger] ws@[j])@ == words_acc(s@.take(i as int)).0[j],
            cur@ == words_acc(s@.take(i as int)).1,
        decreases s@.len() - i,
    {
        assert(s@.take(i + 1).drop_last() =~= s@.take(i as int));
        let c = s[i];
        if crate::text::char_is_whitespace(c) {
            if cur.len() > 0 {
                ws.push(cur);
                cur = Vec::new();
            } else {
                cur = Vec::new();
            }
        } else {
            cur.push(c);
        }
        i += 1;
    }
    assert(s@.take(i as int) =~= s@);
    if cur.len() > 0 {
        ws.push(cur);
    }
    ws
}

fn version_token_exec(w: &[char]) -> (r: Vec<char>)
    ensures
        r@ == version_token(w@),
{
    let mut lo: usize = 0;
    assert(w@.skip(0) =~= w@);
    while lo < w.len() && !(crate::text::char_is_digit(w[lo]) || w[lo] == '.')
        invariant
            lo <= w@.len(),
            trim_start_version(w@.skip(lo as int)) == trim_start_version(w@),
        decreases w@.len() - lo,
    {
        assert(w@.skip(lo as int).drop_first() =~= w@.skip(lo + 1));
        lo += 1;
    }
    let mut hi: usize = w.len();
    assert(w@.subrange(lo as int, hi as int) =~= w@.skip(lo as int));
    while hi > lo && !(crate::text::char_is_digit(w[hi - 1]) || w[hi - 1] == '.')
        invariant
            lo <= hi <= w@.len(),
            trim_end_version(w@.subrange(lo as int, hi as int)) == version_token(w@),
        decreases hi - lo,
    {
        assert(w@.subrange(lo as int, hi as int).drop_last() =~= w@.subrange(lo as int, hi - 1));
        hi -= 1;
    }
    let r = crate::text::slice_of(w, lo, hi);
    assert(r@ =~= w@.subrange(lo as int, hi as int));
    r
}

/// The version in output like `Coverage.py, version 7.6.1 with C extension`:
/// its major and minor numbers and the version text.
pub fn parse_coverage_version(s: &str) -> (r: Option<(u32, u32, String)>)
    ensures
        match version_in(words(s@)) {
            Some((major, minor, text)) => r matches Some((a, b, t)) && a == major && b == minor
                && t@ == text,
            None => r is None,
        },
{
    let cs = chars_of(s);
    let ws = words_exec(&cs);
    let ghost wv = words(s@);
    assert(wv.skip(0) =~= wv);
    let mut i: usize = 0;
    while i < ws.len()
        invariant
            i <= ws@.len(),
            wv == words(s@),
            ws@.len() == wv.len(),
            forall|j: int| 0 <= j < ws@.len() ==> (#[trigger] ws@[j])@ == wv[j],
            version_in(wv) == version_in(wv.skip(i as int)),
        decreases ws@.len() - i,
    {
        assert(wv.skip(i as int)[0] == wv[i as int]);
        assert(wv.skip(i as int).drop_first() =~= wv.skip(i + 1));
        let t = version_token_exec(&ws[i]);
        if t.len() > 0 && crate::text::char_is_digit(t[0]) && crate::text::contains_char(&t, '.') {
            let parts = crate::text::split_char(&t, '.');
            proof {
                let pv = parts@.map_values(|v: Vec<char>| v@);
                assert(pv == split(t@, '.'));
                lemma_split_dotted(t@);
                assert(pv[0] == parts@[0]@);
                assert(pv[1] == parts@[1]@);
            }
            let major = crate::text::parse_u32(&parts[0]);
            let minor = crate::text::parse_u32(&parts[1]);
            match (major, minor) {
                (Some(a), Some(b)) => {
                    return Some((a, b, crate::text::string_of(&t)));
                },
                _ => {
                    return None;
                },
            }
        }
        i += 1;
    }
    None
}

/// Text holding a `.` splits at it into at least two parts.
proof fn lemma_split_dotted(t: Seq<char>)
    requires
        t.contains('.'),
    ensures
        split(t, '.').len() >= 2,
{
    crate::text::lemma_find_first_facts(t, '.');
    match crate::text::find_first(t, '.') {
        Some(i) => {
            crate::text::lemma_split_nonempty(t.skip(i + 1), '.');
        },
        None => {
            let k = choose|k: int| 0 <= k < t.len() && t[k] == '.';
            assert(t[k] == '.');
        },
    }
}

/// The oldest coverage.py with `coverage lcov`: 6.3.
pub const MIN_COVERAGE_PY_MAJOR: u32 = 6;

pub const MIN_COVERAGE_PY_MINOR: u32 = 3;

/// coverage.py must be at least 6.3: versions compare by major, then minor.
pub fn check_coverage_version(major: u32, minor: u32, version: &str) -> (r: Result<(), String>)
    ensures
        r is Ok <==> (major > 6 || (major == 6 && minor >= 3)),
        r matches Err(m) ==> m@ == "coverage.py >= 6.3 is required for `coverage lcov` (found "@
            + version@ + ")"@,
{
    if major > MIN_COVERAGE_PY_MAJOR || (major == MIN_COVERAGE_PY_MAJOR && minor >= MIN_COVERAGE_PY_MINOR) {
        Ok(())
    } else {
        let mut m: Vec<char> = Vec::new();
        push_str(&mut m, "coverage.py >= 6.3 is required for `coverage lcov` (found ");
        push_str(&mut m, version);
        push_str(&mut m, ")");
        Err(crate::text::string_of(&m))
    }
}

} // verus!
