//! Repo-relative paths: what a clean path is, and why every path kept from
//! a tracefile's `SF:` records is one.
use vstd::prelude::*;

use crate::lcov::{
    join_parts, lcov_step, lcov_walk, normalized_sf_path, path_parts, resolve_parts,
    unify_separators,
};
use crate::text::{find_first, lemma_find_first_facts, split};

verus! {

/// No character of `s` is `c`.
pub open spec fn free_of(s: Seq<char>, c: char) -> bool {
    forall|j: int| 0 <= j < s.len() ==> s[j] != c
}

/// A component of a repo-relative path: not empty, not `.` or `..`, and
/// free of both separators.
pub open spec fn clean_segment(s: Seq<char>) -> bool {
    &&& s.len() > 0
    &&& s != seq!['.']
    &&& s != seq!['.', '.']
    &&& free_of(s, '/')
    &&& free_of(s, '\\')
}

/// A repo-relative path: one or more clean components joined with `/`.
pub open spec fn clean_relative_path(p: Seq<char>) -> bool {
    exists|parts: Seq<Seq<char>>|
        #![trigger join_parts(parts)]
        parts.len() > 0 && (forall|j: int| 0 <= j < parts.len() ==> clean_segment(#[trigger] parts[j]))
            && p == join_parts(parts)
}

/// A component kept by `path_parts` from `/`-free, `\`-free pieces.
pub(crate) open spec fn kept_part(s: Seq<char>) -> bool {
    &&& s.len() > 0
    &&& s != seq!['.']
    &&& free_of(s, '/')
    &&& free_of(s, '\\')
}

pub(crate) proof fn lemma_split_pieces(s: Seq<char>, c: char, d: char)
    ensures
        forall|k: int|
            0 <= k < split(s, c).len() ==> free_of(#[trigger] split(s, c)[k], c) && (free_of(s, d)
                ==> free_of(split(s, c)[k], d)),
    decreases s.len(),
{
    lemma_find_first_facts(s, c);
    match find_first(s, c) {
        Some(i) => if 0 <= i < s.len() {
            let rest = s.skip(i + 1);
            lemma_split_pieces(rest, c, d);
            let t = split(rest, c);
            assert(split(s, c) == seq![s.take(i)] + t);
            assert forall|k: int| 0 <= k < split(s, c).len() implies free_of(
                #[trigger] split(s, c)[k],
                c,
            ) && (free_of(s, d) ==> free_of(split(s, c)[k], d)) by {
                if k == 0 {
                    assert(split(s, c)[0] == s.take(i));
                } else {
                    assert(split(s, c)[k] == t[k - 1]);
                    if free_of(s, d) {
                        assert forall|j: int| 0 <= j < rest.len() implies rest[j] != d by {
                            assert(rest[j] == s[i + 1 + j]);
                        }
                    }
                }
            }
        },
        None => {},
    }
}

pub(crate) proof fn lemma_path_parts_kept(pieces: Seq<Seq<char>>)
    requires
        forall|k: int|
            0 <= k < pieces.len() ==> free_of(#[trigger] pieces[k], '/') && free_of(
                pieces[k],
                '\\',
            ),
    ensures
        forall|k: int| 0 <= k < path_parts(pieces).len() ==> kept_part(#[trigger] path_parts(pieces)[k]),
    decreases pieces.len(),
{
    if pieces.len() > 0 {
        let init = pieces.drop_last();
        assert forall|k: int| 0 <= k < init.len() implies free_of(#[trigger] init[k], '/')
            && free_of(init[k], '\\') by {
            assert(init[k] == pieces[k]);
        }
        lemma_path_parts_kept(init);
        let rest = path_parts(init);
        let last = pieces[pieces.len() - 1];
        assert(last == pieces.last());
        if !(last.len() == 0 || last == seq!['.']) {
            let out = rest.push(last);
            assert(path_parts(pieces) == out);
            assert forall|k: int| 0 <= k < out.len() implies kept_part(#[trigger] out[k]) by {
                if k < rest.len() {
                    assert(out[k] == rest[k]);
                }
            }
        } else {
            assert(path_parts(pieces) == rest);
        }
    }
}

pub(crate) proof fn lemma_resolve_clean(parts: Seq<Seq<char>>)
    requires
        forall|k: int| 0 <= k < parts.len() ==> kept_part(#[trigger] parts[k]),
    ensures
        resolve_parts(parts) matches Some(stack) ==> forall|k: int|
            0 <= k < stack.len() ==> clean_segment(#[trigger] stack[k]),
    decreases parts.len(),
{
    if parts.len() > 0 {
        let init = parts.drop_last();
        assert forall|k: int| 0 <= k < init.len() implies kept_part(#[trigger] init[k]) by {
            assert(init[k] == parts[k]);
        }
        lemma_resolve_clean(init);
        match resolve_parts(init) {
            Some(stack) => {
                if parts.last() == seq!['.', '.'] {
                    if stack.len() > 0 {
                        let s2 = stack.drop_last();
                        assert forall|k: int| 0 <= k < s2.len() implies clean_segment(
                            #[trigger] s2[k],
                        ) by {
                            assert(s2[k] == stack[k]);
                        }
                    }
                } else {
                    let s2 = stack.push(parts.last());
                    assert(kept_part(parts[parts.len() - 1]));
                    assert forall|k: int| 0 <= k < s2.len() implies clean_segment(
                        #[trigger] s2[k],
                    ) by {
                        if k < stack.len() {
                            assert(s2[k] == stack[k]);
                        }
                    }
                }
            },
            None => {},
        }
    }
}

pub(crate) proof fn lemma_join_facts(parts: Seq<Seq<char>>)
    requires
        parts.len() > 0,
        forall|k: int| 0 <= k < parts.len() ==> clean_segment(#[trigger] parts[k]),
    ensures
        join_parts(parts).len() > 0,
        join_parts(parts)[0] == parts[0][0],
        free_of(join_parts(parts), '\\'),
    decreases parts.len(),
{
    if parts.len() > 1 {
        let init = parts.drop_last();
        assert forall|k: int| 0 <= k < init.len() implies clean_segment(#[trigger] init[k]) by {
            assert(init[k] == parts[k]);
        }
        lemma_join_facts(init);
        let a = join_parts(init);
        let last = parts[parts.len() - 1];
        assert(clean_segment(last));
        let whole = a + seq!['/'] + last;
        assert(join_parts(parts) == whole);
        assert(whole[0] == a[0]);
        assert forall|j: int| 0 <= j < whole.len() implies whole[j] != '\\' by {
            if j < a.len() {
                assert(whole[j] == a[j]);
            } else if j == a.len() {
                assert(whole[j] == '/');
            } else {
                assert(whole[j] == last[j - a.len() - 1]);
            }
        }
    } else {
        assert(clean_segment(parts[0]));
    }
}

/// What `normalized_sf_path` yields is a clean repo-relative path.
pub(crate) proof fn lemma_normalized_clean(raw: Seq<char>, root: Seq<char>)
    ensures
        normalized_sf_path(raw, root) matches Some(p) ==> clean_relative_path(p),
{
    let unified = unify_separators(raw);
    assert forall|j: int| 0 <= j < unified.len() implies unified[j] != '\\' by {}
    let pieces = split(unified, '/');
    lemma_split_pieces(unified, '/', '\\');
    lemma_path_parts_kept(pieces);
    let parts = path_parts(pieces);
    let root_parts = path_parts(split(root, '/'));
    let n = root_parts.len() as int;
    if n <= parts.len() {
        let rest = parts.skip(n);
        assert forall|k: int| 0 <= k < rest.len() implies kept_part(#[trigger] rest[k]) by {
            assert(rest[k] == parts[n + k]);
        }
        lemma_resolve_clean(rest);
    }
    lemma_resolve_clean(parts);
    match normalized_sf_path(raw, root) {
        Some(p) => {
            let rel = if unified.len() > 0 && unified[0] == '/' {
                parts.skip(n)
            } else {
                parts
            };
            let stack = resolve_parts(rel)->Some_0;
            assert(p == join_parts(stack));
        },
        None => {},
    }
}

/// Each path kept on the way through a tracefile is clean.
pub(crate) proof fn lemma_walk_clean(ls: Seq<Seq<char>>, root: Seq<char>)
    ensures
        lcov_walk(ls, root) matches Ok(st) ==> forall|k: int|
            0 <= k < st.kept.len() ==> clean_relative_path(#[trigger] st.kept[k].0),
    decreases ls.len(),
{
    if ls.len() > 0 {
        lemma_walk_clean(ls.drop_last(), root);
        match lcov_walk(ls.drop_last(), root) {
            Ok(st) => {
                if let Some(b) = st.open {
                    lemma_normalized_clean(b.raw_path, root);
                }
                match lcov_step(st, ls.len(), ls.last(), root) {
                    Ok(st2) => {
                        assert forall|k: int| 0 <= k < st2.kept.len() implies clean_relative_path(
                            #[trigger] st2.kept[k].0,
                        ) by {
                            if k < st.kept.len() {
                                assert(st2.kept[k] == st.kept[k]);
                            }
                        }
                    },
                    Err(_) => {},
                }
            },
            Err(_) => {},
        }
    }
}

} // verus!
