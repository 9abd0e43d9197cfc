//! Changed lines from unified diff text.
use vstd::prelude::*;

use crate::compare::ChangedLines;
use crate::text::{
    chars_of, is_whitespace, lines, parse_unsigned, split_once, strip_prefix, trim,
};

verus! {

/// Length of the run of non-white-space characters that starts `s`.
pub open spec fn field_len(s: Seq<char>) -> nat
    decreases s.len(),
{
    if s.len() == 0 || is_whitespace(s[0]) {
        0
    } else {
        1 + field_len(s.drop_first())
    }
}

/// The first white-space separated field of `s` that starts with `+`;
/// `at_start` tells whether `s` starts at a field boundary.
pub open spec fn plus_field_from(s: Seq<char>, at_start: bool) -> Option<Seq<char>>
    decreases s.len(),
{
    if s.len() == 0 {
        None
    } else if is_whitespace(s[0]) {
        plus_field_from(s.drop_first(), true)
    } else if at_start && s[0] == '+' {
        Some(s.take(field_len(s) as int))
    } else {
        plus_field_from(s.drop_first(), false)
    }
}

/// The new-side start line of a hunk header (the text after `@@ `): the
/// number after the `+` of its `+<start>[,<count>]` field.
pub open spec fn new_start(hunk: Seq<char>) -> Option<nat> {
    match plus_field_from(hunk, true) {
        Some(field) => {
            let range = field.drop_first();
            let start = match split_once(range, ',') {
                Some((a, _)) => a,
                None => range,
            };
            parse_unsigned(start, u32::MAX as nat)
        },
        None => None,
    }
}

/// The file a `+++ ` header names (the text after the prefix): up to the
/// first tab, trimmed, without a `b/` prefix; `None` for `/dev/null`.
pub open spec fn header_target(rest: Seq<char>) -> Option<Seq<char>> {
    let first = match split_once(rest, '\t') {
        Some((a, _)) => a,
        None => rest,
    };
    let target = trim(first);
    if target == seq!['/', 'd', 'e', 'v', '/', 'n', 'u', 'l', 'l'] {
        None
    } else {
        match strip_prefix(target, seq!['b', '/']) {
            Some(t) => Some(t),
            None => Some(target),
        }
    }
}

/// Where the walk over a diff stands: the current file, the next new-side
/// line number inside a hunk, and the (path, line) pairs marked so far.
pub type DiffState = (Option<Seq<char>>, Option<int>, Set<(Seq<char>, u32)>);

/// One line of diff text applied to the walk.
pub open spec fn diff_step(st: DiffState, line: Seq<char>) -> DiffState {
    let (current, cursor, marks) = st;
    match strip_prefix(line, seq!['+', '+', '+', ' ']) {
        Some(rest) => (header_target(rest), None, marks),
        None => match strip_prefix(line, seq!['@', '@', ' ']) {
            Some(rest) => (
                current,
                match new_start(rest) {
                    Some(n) => if n > 0 {
                        Some(n as int)
                    } else {
                        None
                    },
                    None => None,
                },
                marks,
            ),
            None => match (current, cursor) {
                (Some(path), Some(c)) => if line.len() > 0 && line[0] == '+' {
                    (current, Some(c + 1), marks.insert((path, c as u32)))
                } else if line.len() > 0 && (line[0] == '-' || line[0] == '\\') {
                    st
                } else {
                    (current, Some(c + 1), marks)
                },
                _ => st,
            },
        },
    }
}

/// The walk over the given lines of diff text.
pub open spec fn diff_walk(ls: Seq<Seq<char>>) -> DiffState
    decreases ls.len(),
{
    if ls.len() == 0 {
        (None, None, Set::empty())
    } else {
        diff_step(diff_walk(ls.drop_last()), ls.last())
    }
}

/// No new-side line number of the walk goes past `u32::MAX`.
pub open spec fn diff_fits(text: Seq<char>) -> bool {
    forall|k: int|
        0 <= k <= lines(text).len() ==> match (#[trigger] diff_walk(lines(text).take(k))).1 {
            Some(c) => c <= u32::MAX,
            None => true,
        }
}

proof fn lemma_field_len(s: Seq<char>, k: int)
    requires
        0 <= k <= s.len(),
        forall|m: int| 0 <= m < k ==> !is_whitespace(#[trigger] s[m]),
        k == s.len() || is_whitespace(s[k]),
    ensures
        field_len(s) == k,
    decreases k,
{
    if k > 0 {
        lemma_field_len(s.drop_first(), k - 1);
    }
}

spec fn walk_matches(
    current: Option<Vec<char>>,
    cursor: Option<u32>,
    changed: ChangedLines,
    w: DiffState,
) -> bool {
    &&& match current {
        Some(p) => w.0 == Some(p@),
        None => w.0 is None,
    }
    &&& match cursor {
        Some(c) => w.1 == Some(c as int),
        None => w.1 is None,
    }
    &&& forall|p: Seq<char>, l: u32| changed.contains(p, l) <==> w.2.contains((p, l))
    &&& forall|p: Seq<char>| changed.has_path(p) <==> exists|l: u32| w.2.contains((p, l))
}

fn parse_new_start(hunk: &[char]) -> (r: Option<u32>)
    ensures
        match r {
            Some(n) => new_start(hunk@) == Some(n as nat),
            None => new_start(hunk@) is None,
        },
{
    let mut i: usize = 0;
    let mut at_start = true;
    assert(hunk@.skip(0) =~= hunk@);
    while i < hunk.len() && !(at_start && hunk[i] == '+')
        invariant
            i <= hunk@.len(),
            plus_field_from(hunk@, true) == plus_field_from(hunk@.skip(i as int), at_start),
        decreases hunk@.len() - i,
    {
        let c = hunk[i];
        assert(hunk@.skip(i as int).drop_first() =~= hunk@.skip(i + 1));
        if crate::text::char_is_whitespace(c) {
            at_start = true;
        } else {
            at_start = false;
        }
        i += 1;
    }
    if i == hunk.len() {
        assert(hunk@.skip(i as int).len() == 0);
        return None;
    }
    let mut j = i + 1;
    while j < hunk.len() && !crate::text::char_is_whitespace(hunk[j])
        invariant
            i < j <= hunk@.len(),
            forall|m: int| i <= m < j ==> !is_whitespace(#[trigger] hunk@[m]),
        decreases hunk@.len() - j,
    {
        j += 1;
    }
    proof {
        let t = hunk@.skip(i as int);
        assert forall|m: int| 0 <= m < j - i implies !is_whitespace(#[trigger] t[m]) by {
            assert(t[m] == hunk@[i + m]);
        }
        lemma_field_len(t, j - i);
        assert(plus_field_from(t, at_start) == Some(t.take(j - i)));
    }
    let range = crate::text::slice_of(hunk, i + 1, j);
    assert(range@ =~= hunk@.skip(i as int).take(j - i).drop_first());
    let start = match crate::text::split_once_char(&range, ',') {
        Some((a, _)) => a,
        None => range,
    };
    crate::text::parse_u32(&start)
}

fn header_target_of(rest: &[char]) -> (r: Option<Vec<char>>)
    ensures
        match r {
            Some(v) => header_target(rest@) == Some(v@),
            None => header_target(rest@) is None,
        },
{
    let first = match crate::text::split_once_char(rest, '\t') {
        Some((a, _)) => a,
        None => crate::text::slice_of(rest, 0, rest.len()),
    };
    assert(rest@.subrange(0, rest@.len() as int) =~= rest@);
    let target = crate::text::trim_chars(&first);
    if crate::text::eq_str(&target, "/dev/null") {
        proof {
            reveal_strlit("/dev/null");
            assert("/dev/null"@ =~= seq!['/', 'd', 'e', 'v', '/', 'n', 'u', 'l', 'l']);
        }
        return None;
    }
    proof {
        reveal_strlit("/dev/null");
        assert("/dev/null"@ =~= seq!['/', 'd', 'e', 'v', '/', 'n', 'u', 'l', 'l']);
    }
    let b_prefix = chars_of("b/");
    proof {
        reveal_strlit("b/");
        assert(b_prefix@ =~= seq!['b', '/']);
    }
    match crate::text::strip_prefix_chars(&target, &b_prefix) {
        Some(t) => Some(t),
        None => Some(target),
    }
}

/// Extracts added/modified line numbers (new-file side) per path from
/// unified diff text, at any context width.
///
/// Hunk bodies are walked so that only `+` lines count as changed. Trusting the
/// `@@ -<old> +<new_start>[,<new_count>] @@` range instead would also mark the
/// surrounding context, which matters because GitHub's API only ever serves
/// diffs with three lines of context.
pub fn parse_unified_diff(text: &str) -> (r: ChangedLines)
    requires
        diff_fits(text@),
    ensures
        forall|p: Seq<char>, l: u32|
            r.contains(p, l) <==> diff_walk(lines(text@)).2.contains((p, l)),
        forall|p: Seq<char>|
            r.has_path(p) <==> exists|l: u32| diff_walk(lines(text@)).2.contains((p, l)),
{
    let cs = chars_of(text);
    let ls = crate::text::lines_of(&cs);
    let ghost views = ls@.map_values(|v: Vec<char>| v@);
    assert(views == lines(text@));
    let mut changed = ChangedLines::new();
    let mut current: Option<Vec<char>> = None;
    let mut cursor: Option<u32> = None;
    let plus3 = chars_of("+++ ");
    let at2 = chars_of("@@ ");
    proof {
        reveal_strlit("+++ ");
        reveal_strlit("@@ ");
        assert(plus3@ =~= seq!['+', '+', '+', ' ']);
        assert(at2@ =~= seq!['@', '@', ' ']);
        assert(views.take(0) =~= Seq::<Seq<char>>::empty());
    }
    let mut i: usize = 0;
    while i < ls.len()
        invariant
            i <= ls@.len(),
            views == ls@.map_values(|v: Vec<char>| v@),
            views == lines(text@),
            diff_fits(text@),
            plus3@ == seq!['+', '+', '+', ' '],
            at2@ == seq!['@', '@', ' '],
            walk_matches(current, cursor, changed, diff_walk(views.take(i as int))),
        decreases ls@.len() - i,
    {
        let line = &ls[i];
        let ghost w = diff_walk(views.take(i as int));
        let ghost w2 = diff_walk(views.take(i + 1));
        proof {
            assert(views.take(i + 1).drop_last() =~= views.take(i as int));
            assert(views.take(i + 1).last() == line@);
            assert(w2 == diff_step(w, line@));
            assert(i + 1 <= lines(text@).len());
            assert(match diff_walk(lines(text@).take(i + 1)).1 {
                Some(c) => c <= u32::MAX,
                None => true,
            });
        }
        match crate::text::strip_prefix_chars(line, &plus3) {
            Some(rest) => {
                current = header_target_of(&rest);
                cursor = None;
                assert(w2.2 == w.2);
                assert(w2.0 == header_target(rest@));
                assert(walk_matches(current, cursor, changed, w2));
            },
            None => match crate::text::strip_prefix_chars(line, &at2) {
                Some(rest) => {
                    cursor = match parse_new_start(&rest) {
                        Some(n) => if n > 0 {
                            Some(n)
                        } else {
                            None
                        },
                        None => None,
                    };
                    assert(w2.2 == w.2);
                    assert(w2.0 == w.0);
                    assert(walk_matches(current, cursor, changed, w2));
                },
                None => {
                    if current.is_some() && cursor.is_some() {
                        let c = cursor.unwrap();
                        let first = if line.len() > 0 {
                            Some(line[0])
                        } else {
                            None
                        };
                        match first {
                            Some('+') => {
                                let path_chars = current.as_ref().unwrap();
                                let path = crate::text::string_of(path_chars);
                                let ghost before = changed;
                                changed.insert(path.as_str(), c);
                                assert(w2.2 == w.2.insert((path@, c)));
                                assert forall|p: Seq<char>, l: u32| changed.contains(p, l)
                                    <==> w2.2.contains((p, l)) by {}
                                assert forall|p: Seq<char>| changed.has_path(p) <==> exists|
                                    l: u32,
                                | w2.2.contains((p, l)) by {
                                    if changed.has_path(p) {
                                        if p == path@ {
                                            assert(w2.2.contains((p, c)));
                                        } else {
                                            assert(before.has_path(p));
                                            let l = choose|l: u32| w.2.contains((p, l));
                                            assert(w2.2.contains((p, l)));
                                        }
                                    }
                                    if exists|l: u32| w2.2.contains((p, l)) {
                                        let l = choose|l: u32| w2.2.contains((p, l));
                                        if p != path@ {
                                            assert(w.2.contains((p, l)));
                                            assert(before.has_path(p));
                                        }
                                    }
                                }
                                cursor = Some(c + 1);
                                assert(walk_matches(current, cursor, changed, w2));
                            },
                            Some('-') => {
                                assert(walk_matches(current, cursor, changed, w2));
                            },
                            Some('\\') => {
                                assert(walk_matches(current, cursor, changed, w2));
                            },
                            _ => {
                                cursor = Some(c + 1);
                                assert(!(line@.len() > 0 && (line@[0] == '+' || line@[0] == '-'
                                    || line@[0] == '\\')));
                                assert(w2.2 == w.2);
                                assert(w2.1 == Some(c + 1));
                                assert(walk_matches(current, cursor, changed, w2));
                            },
                        }
                    } else {
                        assert(walk_matches(current, cursor, changed, w2));
                    }
                },
            },
        }
        i += 1;
    }
    assert(views.take(i as int) =~= views);
    changed
}

/// Whether every new-side line number of the walk over `text` fits in a
/// `u32`: what [`parse_unified_diff`] requires.
pub fn diff_line_numbers_fit(text: &str) -> (r: bool)
    ensures
        r == diff_fits(text@),
{
    let cs = chars_of(text);
    let ls = crate::text::lines_of(&cs);
    let ghost views = ls@.map_values(|v: Vec<char>| v@);
    assert(views == lines(text@));
    let mut in_file = false;
    let mut cursor: Option<u64> = None;
    let plus3 = chars_of("+++ ");
    let at2 = chars_of("@@ ");
    proof {
        reveal_strlit("+++ ");
        reveal_strlit("@@ ");
        assert(plus3@ =~= seq!['+', '+', '+', ' ']);
        assert(at2@ =~= seq!['@', '@', ' ']);
        assert(views.take(0) =~= Seq::<Seq<char>>::empty());
    }
    let mut i: usize = 0;
    while i < ls.len()
        invariant
            i <= ls@.len(),
            views == ls@.map_values(|v: Vec<char>| v@),
            views == lines(text@),
            plus3@ == seq!['+', '+', '+', ' '],
            at2@ == seq!['@', '@', ' '],
            in_file == (diff_walk(views.take(i as int)).0 is Some),
            match cursor {
                Some(c) => diff_walk(views.take(i as int)).1 == Some(c as int) && c <= u32::MAX,
                None => diff_walk(views.take(i as int)).1 is None,
            },
            forall|k: int|
                0 <= k <= i ==> match (#[trigger] diff_walk(lines(text@).take(k))).1 {
                    Some(c) => c <= u32::MAX,
                    None => true,
                },
        decreases ls@.len() - i,
    {
        let line = &ls[i];
        let ghost w = diff_walk(views.take(i as int));
        let ghost w2 = diff_walk(views.take(i + 1));
        proof {
            assert(views.take(i + 1).drop_last() =~= views.take(i as int));
            assert(views.take(i + 1).last() == line@);
            assert(w2 == diff_step(w, line@));
        }
        match crate::text::strip_prefix_chars(line, &plus3) {
            Some(rest) => {
                in_file = header_target_of(&rest).is_some();
                cursor = None;
            },
            None => match crate::text::strip_prefix_chars(line, &at2) {
                Some(rest) => {
                    cursor = match parse_new_start(&rest) {
                        Some(n) => if n > 0 {
                            Some(n as u64)
                        } else {
                            None
                        },
                        None => None,
                    };
                },
                None => {
                    if in_file && cursor.is_some() {
                        let c = cursor.unwrap();
                        let first = if line.len() > 0 {
                            Some(line[0])
                        } else {
                            None
                        };
                        match first {
                            Some('-') => {},
                            Some('\\') => {},
                            _ => {
                                if c >= 4294967295 {
                                    assert(w2.1 == Some(c + 1));
                                    assert(!diff_fits(text@)) by {
                                        assert(diff_walk(lines(text@).take(i + 1)).1 == Some(
                                            c + 1,
                                        ));
                                    }
                                    return false;
                                }
                                cursor = Some(c + 1);
                            },
                        }
                    }
                },
            },
        }
        i += 1;
    }
    assert(views.take(i as int) =~= views);
    true
}

} // verus!
