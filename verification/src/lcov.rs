//! LCOV parsing into coverage models.
//!
//! Line records (`SF`, `DA`, `LF`, `LH`, `end_of_record`) are strict: malformed
//! input fails the parse. Function (`FN`, `FNDA`, `FNF`, `FNH`) and branch
//! (`BRDA`, `BRF`, `BRH`) records are best-effort: malformed entries are
//! skipped with a warning so reports from older tools keep parsing. `TN`,
//! `VER`, MC/DC records, and `DA` checksums are ignored.
use vstd::prelude::*;

use crate::model::{
    BranchHit, FileCoverage, FunctionHit, Language, LineHit, branch_records, branches_merged_rec,
    files_grouped, function_records, functions_merged_rec, has_line, has_path, language_of,
    lines_merged, path_branches, path_functions, path_lines, paths_sorted,
};
use crate::text::{
    all_digits, chars_of, dec, parse_unsigned, push_chars, push_dec, push_str, rsplit_once, split,
    split_once, trim,
};

verus! {

// ---------------------------------------------------------------------------
// Record fields.
// ---------------------------------------------------------------------------

/// `FN:<start_line>[,<end_line>],<name>`: the end line (all digits) is
/// optional and function names may themselves contain commas.
pub open spec fn fn_record(rest: Seq<char>) -> Option<(u32, Seq<char>)> {
    match split_once(rest, ',') {
        Some((start_field, after_start)) => match parse_unsigned(trim(start_field), u32::MAX as nat) {
            Some(start) => {
                let name = match split_once(after_start, ',') {
                    Some((maybe_end, tail)) => if trim(maybe_end).len() > 0 && all_digits(
                        trim(maybe_end),
                    ) {
                        tail
                    } else {
                        after_start
                    },
                    None => after_start,
                };
                if trim(name).len() > 0 {
                    Some((start as u32, trim(name)))
                } else {
                    None
                }
            },
            None => None,
        },
        None => None,
    }
}

/// `FNDA:<count>,<name>`: names may contain commas.
pub open spec fn fnda_record(rest: Seq<char>) -> Option<(u64, Seq<char>)> {
    match split_once(rest, ',') {
        Some((count_field, name)) => match parse_unsigned(trim(count_field), u64::MAX as nat) {
            Some(hits) => if trim(name).len() > 0 {
                Some((hits as u64, trim(name)))
            } else {
                None
            },
            None => None,
        },
        None => None,
    }
}

/// `BRDA:<line>,<block>,<branch>,<taken>`: taken is the last field (`-` means
/// the decision point was never evaluated); branch expressions may contain
/// commas. Line 0 and empty identifiers are rejected.
pub open spec fn brda_record(rest: Seq<char>) -> Option<(u32, Seq<char>, Seq<char>, Option<u64>)> {
    match split_once(rest, ',') {
        Some((line_field, after_line)) => match split_once(after_line, ',') {
            Some((block_field, remainder)) => match parse_unsigned(trim(line_field), u32::MAX as nat) {
                Some(line) => match rsplit_once(remainder, ',') {
                    Some((branch_field, taken_field)) => {
                        let block = trim(block_field);
                        let branch = trim(branch_field);
                        let taken = trim(taken_field);
                        if line == 0 || block.len() == 0 || branch.len() == 0 {
                            None
                        } else if taken == seq!['-'] {
                            Some((line as u32, block, branch, None))
                        } else {
                            match parse_unsigned(taken, u64::MAX as nat) {
                                Some(t) => Some((line as u32, block, branch, Some(t as u64))),
                                None => None,
                            }
                        }
                    },
                    None => None,
                },
                None => None,
            },
            None => None,
        },
        None => None,
    }
}

fn trimmed(s: &[char]) -> (r: Vec<char>)
    ensures
        r@ == trim(s@),
{
    crate::text::trim_chars(s)
}

/// Parses the fields of an `FN` record.
pub fn parse_fn(rest: &str) -> (r: Option<(u32, String)>)
    ensures
        match r {
            Some((line, name)) => fn_record(rest@) == Some((line, name@)),
            None => fn_record(rest@) is None,
        },
{
    let cs = chars_of(rest);
    let (start_field, after_start) = match crate::text::split_once_char(&cs, ',') {
        Some(p) => p,
        None => return None,
    };
    let start = match crate::text::parse_u32(&trimmed(&start_field)) {
        Some(v) => v,
        None => return None,
    };
    let name = match crate::text::split_once_char(&after_start, ',') {
        Some((maybe_end, tail)) => {
            let t = trimmed(&maybe_end);
            if t.len() > 0 && all_digit_chars(&t) {
                tail
            } else {
                after_start
            }
        },
        None => after_start,
    };
    let name = trimmed(&name);
    if name.len() > 0 {
        Some((start, crate::text::string_of(&name)))
    } else {
        None
    }
}

fn all_digit_chars(s: &[char]) -> (r: bool)
    ensures
        r == all_digits(s@),
{
    let mut i: usize = 0;
    while i < s.len()
        invariant
            i <= s@.len(),
            forall|j: int| 0 <= j < i ==> crate::text::is_digit(#[trigger] s@[j]),
        decreases s@.len() - i,
    {
        if !crate::text::char_is_digit(s[i]) {
            return false;
        }
        i += 1;
    }
    true
}

/// Parses the fields of an `FNDA` record.
pub fn parse_fnda(rest: &str) -> (r: Option<(u64, String)>)
    ensures
        match r {
            Some((hits, name)) => fnda_record(rest@) == Some((hits, name@)),
            None => fnda_record(rest@) is None,
        },
{
    let cs = chars_of(rest);
    let (count_field, name) = match crate::text::split_once_char(&cs, ',') {
        Some(p) => p,
        None => return None,
    };
    let hits = match crate::text::parse_u64(&trimmed(&count_field)) {
        Some(v) => v,
        None => return None,
    };
    let name = trimmed(&name);
    if name.len() > 0 {
        Some((hits, crate::text::string_of(&name)))
    } else {
        None
    }
}

/// Parses the fields of a `BRDA` record.
pub fn parse_brda(rest: &str) -> (r: Option<(u32, String, String, Option<u64>)>)
    ensures
        match r {
            Some((line, block, branch, taken)) => brda_record(rest@) == Some(
                (line, block@, branch@, taken),
            ),
            None => brda_record(rest@) is None,
        },
{
    let cs = chars_of(rest);
    let (line_field, after_line) = match crate::text::split_once_char(&cs, ',') {
        Some(p) => p,
        None => return None,
    };
    let (block_field, remainder) = match crate::text::split_once_char(&after_line, ',') {
        Some(p) => p,
        None => return None,
    };
    let line = match crate::text::parse_u32(&trimmed(&line_field)) {
        Some(v) => v,
        None => return None,
    };
    let (branch_field, taken_field) = match crate::text::rsplit_once_char(&remainder, ',') {
        Some(p) => p,
        None => return None,
    };
    let block = trimmed(&block_field);
    let branch = trimmed(&branch_field);
    let taken = trimmed(&taken_field);
    if line == 0 || block.len() == 0 || branch.len() == 0 {
        return None;
    }
    if taken.len() == 1 && taken[0] == '-' {
        assert(taken@ =~= seq!['-']);
        return Some((line, crate::text::string_of(&block), crate::text::string_of(&branch), None));
    }
    assert(taken@ != seq!['-']) by {
        if taken@ == seq!['-'] {
            assert(taken@.len() == 1 && taken@[0] == '-');
        }
    }
    match crate::text::parse_u64(&taken) {
        Some(t) => Some(
            (line, crate::text::string_of(&block), crate::text::string_of(&branch), Some(t)),
        ),
        None => None,
    }
}

// ---------------------------------------------------------------------------
// Source paths.
// ---------------------------------------------------------------------------

/// The components of a `/`-separated path other than empty and `.` ones.
pub open spec fn path_parts(pieces: Seq<Seq<char>>) -> Seq<Seq<char>>
    decreases pieces.len(),
{
    if pieces.len() == 0 {
        seq![]
    } else {
        let rest = path_parts(pieces.drop_last());
        let p = pieces.last();
        if p.len() == 0 || p == seq!['.'] {
            rest
        } else {
            rest.push(p)
        }
    }
}

/// Applies `..` components to a stack of components; `None` when one would
/// climb above the start.
pub open spec fn resolve_parts(parts: Seq<Seq<char>>) -> Option<Seq<Seq<char>>>
    decreases parts.len(),
{
    if parts.len() == 0 {
        Some(seq![])
    } else {
        match resolve_parts(parts.drop_last()) {
            Some(stack) => if parts.last() == seq!['.', '.'] {
                if stack.len() == 0 {
                    None
                } else {
                    Some(stack.drop_last())
                }
            } else {
                Some(stack.push(parts.last()))
            },
            None => None,
        }
    }
}

/// The components joined with `/`.
pub open spec fn join_parts(parts: Seq<Seq<char>>) -> Seq<char>
    decreases parts.len(),
{
    if parts.len() == 0 {
        seq![]
    } else if parts.len() == 1 {
        parts[0]
    } else {
        join_parts(parts.drop_last()) + seq!['/'] + parts.last()
    }
}

/// `\` read as `/`.
pub open spec fn unify_separators(s: Seq<char>) -> Seq<char> {
    s.map_values(|c: char| if c == '\\' { '/' } else { c })
}

/// An `SF:` path made repo-root relative: separators unified, an absolute
/// path stripped of the (absolute) root's components, `.` dropped and `..`
/// applied. `None` when it resolves outside the root or to nothing.
pub open spec fn normalized_sf_path(raw: Seq<char>, root: Seq<char>) -> Option<Seq<char>> {
    let unified = unify_separators(raw);
    let parts = path_parts(split(unified, '/'));
    let root_parts = path_parts(split(root, '/'));
    let relative = if unified.len() > 0 && unified[0] == '/' {
        if root.len() > 0 && root[0] == '/' && root_parts.len() <= parts.len() && parts.take(
            root_parts.len() as int,
        ) == root_parts {
            Some(parts.skip(root_parts.len() as int))
        } else {
            None
        }
    } else {
        Some(parts)
    };
    match relative {
        Some(rel) => match resolve_parts(rel) {
            Some(stack) => if stack.len() > 0 {
                Some(join_parts(stack))
            } else {
                None
            },
            None => None,
        },
        None => None,
    }
}

fn parts_of(s: &[char]) -> (r: Vec<Vec<char>>)
    ensures
        r@.map_values(|v: Vec<char>| v@) == path_parts(split(s@, '/')),
{
    let pieces = crate::text::split_char(s, '/');
    let ghost pv = pieces@.map_values(|v: Vec<char>| v@);
    let mut r: Vec<Vec<char>> = Vec::new();
    let mut i: usize = 0;
    assert(pv.take(0) =~= Seq::<Seq<char>>::empty());
    assert(r@.map_values(|v: Vec<char>| v@) =~= Seq::<Seq<char>>::empty());
    while i < pieces.len()
        invariant
            i <= pieces@.len(),
            pv == pieces@.map_values(|v: Vec<char>| v@),
            r@.map_values(|v: Vec<char>| v@) == path_parts(pv.take(i as int)),
        decreases pieces@.len() - i,
    {
        let p = &pieces[i];
        assert(pv.take(i + 1).drop_last() =~= pv.take(i as int));
        assert(pv.take(i + 1).last() == p@);
        let is_dot = p.len() == 1 && p[0] == '.';
        assert(is_dot == (p@ == seq!['.'])) by {
            if p@.len() == 1 && p@[0] == '.' {
                assert(p@ =~= seq!['.']);
            }
        }
        if !(p.len() == 0 || is_dot) {
            let ghost before = r@.map_values(|v: Vec<char>| v@);
            r.push(crate::text::slice_of(p, 0, p.len()));
            assert(p@.subrange(0, p@.len() as int) =~= p@);
            assert(r@.map_values(|v: Vec<char>| v@) =~= before.push(p@));
        }
        i += 1;
    }
    assert(pv.take(i as int) =~= pv);
    r
}

fn join_with_slash(parts: &Vec<Vec<char>>) -> (r: Vec<char>)
    ensures
        r@ == join_parts(parts@.map_values(|v: Vec<char>| v@)),
{
    let ghost pv = parts@.map_values(|v: Vec<char>| v@);
    let mut r: Vec<char> = Vec::new();
    let mut i: usize = 0;
    assert(pv.take(0) =~= Seq::<Seq<char>>::empty());
    while i < parts.len()
        invariant
            i <= parts@.len(),
            pv == parts@.map_values(|v: Vec<char>| v@),
            r@ == join_parts(pv.take(i as int)),
        decreases parts@.len() - i,
    {
        assert(pv.take(i + 1).drop_last() =~= pv.take(i as int));
        if i > 0 {
            r.push('/');
        }
        crate::text::push_chars(&mut r, &parts[i]);
        proof {
            if i == 0 {
                assert(pv.take(1) =~= seq![pv[0]]);
                assert(r@ =~= pv[0]);
            } else {
                assert(r@ =~= join_parts(pv.take(i as int)) + seq!['/'] + pv[i as int]);
            }
        }
        i += 1;
    }
    assert(pv.take(i as int) =~= pv);
    r
}

/// Normalizes an `SF:` path to a repo-root relative `/`-separated path.
///
/// Returns `None` when the path resolves outside the repo root (third-party
/// code such as stdlib or vendored dependencies).
pub fn normalize_sf_path(raw: &str, repo_root: &str) -> (r: Option<String>)
    ensures
        match r {
            Some(p) => normalized_sf_path(raw@, repo_root@) == Some(p@),
            None => normalized_sf_path(raw@, repo_root@) is None,
        },
{
    let rc = chars_of(raw);
    let mut unified: Vec<char> = Vec::new();
    let mut i: usize = 0;
    while i < rc.len()
        invariant
            i <= rc@.len(),
            unified@ == unify_separators(rc@.take(i as int)),
        decreases rc@.len() - i,
    {
        let c = rc[i];
        unified.push(
            if c == '\\' {
                '/'
            } else {
                c
            },
        );
        i += 1;
        assert(unified@ =~= unify_separators(rc@.take(i as int)));
    }
    assert(rc@.take(i as int) =~= rc@);
    let parts = parts_of(&unified);
    let root = chars_of(repo_root);
    let root_parts = parts_of(&root);
    let ghost pv = parts@.map_values(|v: Vec<char>| v@);
    let ghost rv = root_parts@.map_values(|v: Vec<char>| v@);
    let start: usize = if unified.len() > 0 && unified[0] == '/' {
        if !(root.len() > 0 && root[0] == '/') || root_parts.len() > parts.len() {
            return None;
        }
        let mut k: usize = 0;
        while k < root_parts.len()
            invariant
                k <= root_parts@.len() <= parts@.len(),
                rc@ == raw@,
                root@ == repo_root@,
                unified@ == unify_separators(rc@),
                unified@.len() > 0 && unified@[0] == '/',
                root@.len() > 0 && root@[0] == '/',
                pv == path_parts(split(unified@, '/')),
                rv == path_parts(split(root@, '/')),
                pv == parts@.map_values(|v: Vec<char>| v@),
                rv == root_parts@.map_values(|v: Vec<char>| v@),
                pv.take(k as int) == rv.take(k as int),
            decreases root_parts@.len() - k,
        {
            if !crate::text::seq_eq(&parts[k], &root_parts[k]) {
                assert(pv.take(rv.len() as int)[k as int] != rv[k as int]);
                return None;
            }
            assert(pv.take(k + 1) =~= pv.take(k as int).push(pv[k as int]));
            assert(rv.take(k + 1) =~= rv.take(k as int).push(rv[k as int]));
            k += 1;
        }
        assert(rv.take(k as int) =~= rv);
        root_parts.len()
    } else {
        0
    };
    let ghost rel = pv.skip(start as int);
    assert(pv.skip(0) =~= pv);
    let mut stack: Vec<Vec<char>> = Vec::new();
    let mut j: usize = start;
    assert(rel.take(0) =~= Seq::<Seq<char>>::empty());
    assert(stack@.map_values(|v: Vec<char>| v@) =~= Seq::<Seq<char>>::empty());
    while j < parts.len()
        invariant
            start <= j <= parts@.len(),
            rc@ == raw@,
            root@ == repo_root@,
            unified@ == unify_separators(rc@),
            pv == path_parts(split(unified@, '/')),
            rv == path_parts(split(root@, '/')),
            ({
                let relative = if unified@.len() > 0 && unified@[0] == '/' {
                    if root@.len() > 0 && root@[0] == '/' && rv.len() <= pv.len() && pv.take(
                        rv.len() as int,
                    ) == rv {
                        Some(pv.skip(rv.len() as int))
                    } else {
                        None
                    }
                } else {
                    Some(pv)
                };
                relative == Some(rel)
            }),
            pv == parts@.map_values(|v: Vec<char>| v@),
            rel == pv.skip(start as int),
            resolve_parts(rel.take(j - start)) == Some(stack@.map_values(|v: Vec<char>| v@)),
        decreases parts@.len() - j,
    {
        let p = &parts[j];
        assert(rel.take(j - start + 1).drop_last() =~= rel.take(j - start));
        assert(rel.take(j - start + 1).last() == p@);
        let is_up = p.len() == 2 && p[0] == '.' && p[1] == '.';
        assert(is_up == (p@ == seq!['.', '.'])) by {
            if p@.len() == 2 && p@[0] == '.' && p@[1] == '.' {
                assert(p@ =~= seq!['.', '.']);
            }
        }
        let ghost before = stack@.map_values(|v: Vec<char>| v@);
        if is_up {
            if stack.len() == 0 {
                proof {
                    lemma_resolve_stays_none(rel, j - start + 1);
                }
                return None;
            }
            stack.pop();
            assert(stack@.map_values(|v: Vec<char>| v@) =~= before.drop_last());
        } else {
            stack.push(crate::text::slice_of(p, 0, p.len()));
            assert(p@.subrange(0, p@.len() as int) =~= p@);
            assert(stack@.map_values(|v: Vec<char>| v@) =~= before.push(p@));
        }
        j += 1;
    }
    assert(rel.take(j - start) =~= rel);
    if stack.len() == 0 {
        return None;
    }
    let joined = join_with_slash(&stack);
    Some(crate::text::string_of(&joined))
}

proof fn lemma_resolve_stays_none(parts: Seq<Seq<char>>, k: int)
    requires
        0 <= k <= parts.len(),
        resolve_parts(parts.take(k)) is None,
    ensures
        resolve_parts(parts) is None,
    decreases parts.len() - k,
{
    if k < parts.len() {
        assert(parts.take(k + 1).drop_last() =~= parts.take(k));
        lemma_resolve_stays_none(parts, k + 1);
    } else {
        assert(parts.take(k) =~= parts);
    }
}

// ---------------------------------------------------------------------------
// The reader: a walk over the lines of a tracefile.
// ---------------------------------------------------------------------------

/// A branch record as read: line, block, branch, taken.
pub type BranchRecord = (u32, Seq<char>, Seq<char>, Option<u64>);

/// A function record as read: name, start line (0 from `FNDA`), hits (0 from `FN`).
pub type FunctionRecord = (Seq<char>, u32, u64);

/// The records of one `SF` ... `end_of_record` block read so far.
pub struct BlockRecords {
    pub raw_path: Seq<char>,
    pub lines: Seq<LineHit>,
    pub branches: Seq<BranchRecord>,
    pub functions: Seq<FunctionRecord>,
    pub lf: Option<u64>,
    pub lh: Option<u64>,
    pub fnf: Option<u64>,
    pub fnh: Option<u64>,
    pub brf: Option<u64>,
    pub brh: Option<u64>,
}

/// A block kept for a repo-relative path.
pub type KeptBlock = (Seq<char>, Seq<LineHit>, Seq<BranchRecord>, Seq<FunctionRecord>);

/// What has been read: the open block, the blocks kept so far, the warnings.
pub struct LcovRead {
    pub open: Option<BlockRecords>,
    pub kept: Seq<KeptBlock>,
    pub warnings: Seq<Seq<char>>,
}

pub open spec fn new_block(raw_path: Seq<char>) -> BlockRecords {
    BlockRecords {
        raw_path,
        lines: seq![],
        branches: seq![],
        functions: seq![],
        lf: None,
        lh: None,
        fnf: None,
        fnh: None,
        brf: None,
        brh: None,
    }
}

/// Distinct line numbers among `s`.
pub open spec fn distinct_lines(s: Seq<LineHit>) -> nat
    decreases s.len(),
{
    if s.len() == 0 {
        0
    } else {
        distinct_lines(s.drop_last()) + if has_line(s.drop_last(), s.last().line) {
            0nat
        } else {
            1nat
        }
    }
}

pub open spec fn line_hit_in(s: Seq<LineHit>, line: u32) -> bool {
    exists|i: int| 0 <= i < s.len() && s[i].line == line && s[i].hits > 0
}

/// Distinct line numbers among `s` with a positive count.
pub open spec fn distinct_covered_lines(s: Seq<LineHit>) -> nat
    decreases s.len(),
{
    if s.len() == 0 {
        0
    } else {
        distinct_covered_lines(s.drop_last()) + if s.last().hits > 0 && !line_hit_in(
            s.drop_last(),
            s.last().line,
        ) {
            1nat
        } else {
            0nat
        }
    }
}

pub open spec fn name_in(s: Seq<FunctionRecord>, name: Seq<char>) -> bool {
    exists|i: int| 0 <= i < s.len() && s[i].0 == name
}

pub open spec fn name_hit_in(s: Seq<FunctionRecord>, name: Seq<char>) -> bool {
    exists|i: int| 0 <= i < s.len() && s[i].0 == name && s[i].2 > 0
}

/// Distinct function names among `s`.
pub open spec fn distinct_names(s: Seq<FunctionRecord>) -> nat
    decreases s.len(),
{
    if s.len() == 0 {
        0
    } else {
        distinct_names(s.drop_last()) + if name_in(s.drop_last(), s.last().0) {
            0nat
        } else {
            1nat
        }
    }
}

/// Distinct function names among `s` with a positive count.
pub open spec fn distinct_hit_names(s: Seq<FunctionRecord>) -> nat
    decreases s.len(),
{
    if s.len() == 0 {
        0
    } else {
        distinct_hit_names(s.drop_last()) + if s.last().2 > 0 && !name_hit_in(
            s.drop_last(),
            s.last().0,
        ) {
            1nat
        } else {
            0nat
        }
    }
}

pub open spec fn same_key(a: BranchRecord, b: BranchRecord) -> bool {
    a.0 == b.0 && a.1 == b.1 && a.2 == b.2
}

pub open spec fn key_in(s: Seq<BranchRecord>, k: BranchRecord) -> bool {
    exists|i: int| 0 <= i < s.len() && same_key(s[i], k)
}

pub open spec fn taken_once(r: BranchRecord) -> bool {
    match r.3 {
        Some(t) => t > 0,
        None => false,
    }
}

pub open spec fn key_taken_in(s: Seq<BranchRecord>, k: BranchRecord) -> bool {
    exists|i: int| 0 <= i < s.len() && same_key(s[i], k) && taken_once(s[i])
}

/// Distinct branch keys among `s`.
pub open spec fn distinct_keys(s: Seq<BranchRecord>) -> nat
    decreases s.len(),
{
    if s.len() == 0 {
        0
    } else {
        distinct_keys(s.drop_last()) + if key_in(s.drop_last(), s.last()) {
            0nat
        } else {
            1nat
        }
    }
}

/// Distinct branch keys among `s` taken at least once.
pub open spec fn distinct_taken_keys(s: Seq<BranchRecord>) -> nat
    decreases s.len(),
{
    if s.len() == 0 {
        0
    } else {
        distinct_taken_keys(s.drop_last()) + if taken_once(s.last()) && !key_taken_in(
            s.drop_last(),
            s.last(),
        ) {
            1nat
        } else {
            0nat
        }
    }
}

/// The warning for a summary record that disagrees with the records counted.
pub open spec fn count_warning(
    path: Seq<char>,
    tag: Seq<char>,
    records: Seq<char>,
    declared: Option<u64>,
    actual: nat,
) -> Seq<Seq<char>> {
    match declared {
        Some(d) => if d != actual {
            seq![
                path + ": "@ + tag + "="@ + dec(d as nat) + " disagrees with "@ + dec(actual) + " "@
                    + records,
            ]
        } else {
            seq![]
        },
        None => seq![],
    }
}

/// The warnings `end_of_record` gives for a block.
pub open spec fn block_warnings(b: BlockRecords) -> Seq<Seq<char>> {
    count_warning(b.raw_path, "LF"@, "DA lines"@, b.lf, distinct_lines(b.lines)) + count_warning(
        b.raw_path,
        "LH"@,
        "covered DA lines"@,
        b.lh,
        distinct_covered_lines(b.lines),
    ) + count_warning(b.raw_path, "FNF"@, "functions"@, b.fnf, distinct_names(b.functions))
        + count_warning(
        b.raw_path,
        "FNH"@,
        "covered functions"@,
        b.fnh,
        distinct_hit_names(b.functions),
    ) + count_warning(b.raw_path, "BRF"@, "branches"@, b.brf, distinct_keys(b.branches))
        + count_warning(
        b.raw_path,
        "BRH"@,
        "covered branches"@,
        b.brh,
        distinct_taken_keys(b.branches),
    )
}

/// Closing a block: its count warnings, then it is kept under its
/// repo-relative path or dropped with a warning.
pub open spec fn finish(st: LcovRead, b: BlockRecords, root: Seq<char>) -> LcovRead {
    let warnings = st.warnings + block_warnings(b);
    match normalized_sf_path(b.raw_path, root) {
        Some(p) => LcovRead {
            open: None,
            kept: st.kept.push((p, b.lines, b.branches, b.functions)),
            warnings,
        },
        None => LcovRead {
            open: None,
            kept: st.kept,
            warnings: warnings.push(b.raw_path + ": path resolves outside repo root, dropped"@),
        },
    }
}

pub open spec fn line_label(lineno: nat) -> Seq<char> {
    "line "@ + dec(lineno) + ": "@
}

pub open spec fn warn(st: LcovRead, w: Seq<char>) -> LcovRead {
    LcovRead { open: st.open, kept: st.kept, warnings: st.warnings.push(w) }
}

pub open spec fn with_block(st: LcovRead, b: BlockRecords) -> LcovRead {
    LcovRead { open: Some(b), kept: st.kept, warnings: st.warnings }
}

/// A `DA` record's fields: the line number, then the hit count; a third
/// field (a checksum) is ignored.
pub open spec fn da_record(rest: Seq<char>) -> Result<LineHit, Seq<char>> {
    let (line_field, after) = match split_once(rest, ',') {
        Some((a, b)) => (a, Some(b)),
        None => (rest, None),
    };
    match parse_unsigned(trim(line_field), u32::MAX as nat) {
        None => Err("DA has invalid line number '"@ + line_field + "'"@),
        Some(line) => match after {
            None => Err("DA missing hit count"@),
            Some(b) => {
                let hits_field = match split_once(b, ',') {
                    Some((h, _)) => h,
                    None => b,
                };
                match parse_unsigned(trim(hits_field), u64::MAX as nat) {
                    None => Err("DA has invalid hit count '"@ + hits_field + "'"@),
                    Some(hits) => Ok(LineHit { line: line as u32, hits: hits as u64 }),
                }
            },
        },
    }
}

/// A required count record (`LF`, `LH`).
pub open spec fn count_record(tag: Seq<char>, rest: Seq<char>) -> Result<u64, Seq<char>> {
    match parse_unsigned(trim(rest), u64::MAX as nat) {
        Some(n) => Ok(n as u64),
        None => Err(tag + " has invalid count '"@ + rest + "'"@),
    }
}

/// One line (number `lineno`, untrimmed `raw`) applied to what was read;
/// `Err` carries the line number and message of a malformed record.
pub open spec fn lcov_step(st: LcovRead, lineno: nat, raw: Seq<char>, root: Seq<char>) -> Result<
    LcovRead,
    (nat, Seq<char>),
> {
    let line = trim(raw);
    if line.len() == 0 {
        Ok(st)
    } else if line == "end_of_record"@ {
        match st.open {
            Some(b) => Ok(finish(st, b, root)),
            None => Err((lineno, "end_of_record without preceding SF"@)),
        }
    } else {
        match split_once(line, ':') {
            None => Ok(warn(st, line_label(lineno) + "unrecognized line skipped: "@ + line)),
            Some((tag, rest)) => if tag == "SF"@ {
                if st.open is Some {
                    Err((lineno, "SF while previous record is still open (missing end_of_record)"@))
                } else if trim(rest).len() == 0 {
                    Err((lineno, "SF with empty path"@))
                } else {
                    Ok(with_block(st, new_block(trim(rest))))
                }
            } else if tag == "DA"@ {
                match st.open {
                    None => Err((lineno, "DA before SF"@)),
                    Some(b) => match da_record(rest) {
                        Err(m) => Err((lineno, m)),
                        Ok(lh) => Ok(with_block(st, BlockRecords { lines: b.lines.push(lh), ..b })),
                    },
                }
            } else if tag == "LF"@ {
                match st.open {
                    None => Err((lineno, "LF before SF"@)),
                    Some(b) => match count_record("LF"@, rest) {
                        Err(m) => Err((lineno, m)),
                        Ok(n) => Ok(with_block(st, BlockRecords { lf: Some(n), ..b })),
                    },
                }
            } else if tag == "LH"@ {
                match st.open {
                    None => Err((lineno, "LH before SF"@)),
                    Some(b) => match count_record("LH"@, rest) {
                        Err(m) => Err((lineno, m)),
                        Ok(n) => Ok(with_block(st, BlockRecords { lh: Some(n), ..b })),
                    },
                }
            } else if tag == "FN"@ {
                match st.open {
                    None => Ok(warn(st, line_label(lineno) + "FN before SF skipped"@)),
                    Some(b) => match fn_record(rest) {
                        Some((start, name)) => Ok(
                            with_block(
                                st,
                                BlockRecords { functions: b.functions.push((name, start, 0u64)), ..b },
                            ),
                        ),
                        None => Ok(warn(st, line_label(lineno) + "malformed FN skipped: "@ + line)),
                    },
                }
            } else if tag == "FNDA"@ {
                match st.open {
                    None => Ok(warn(st, line_label(lineno) + "FNDA before SF skipped"@)),
                    Some(b) => match fnda_record(rest) {
                        Some((hits, name)) => Ok(
                            with_block(
                                st,
                                BlockRecords { functions: b.functions.push((name, 0u32, hits)), ..b },
                            ),
                        ),
                        None => Ok(warn(st, line_label(lineno) + "malformed FNDA skipped: "@ + line)),
                    },
                }
            } else if tag == "BRDA"@ {
                match st.open {
                    None => Ok(warn(st, line_label(lineno) + "BRDA before SF skipped"@)),
                    Some(b) => match brda_record(rest) {
                        Some(rec) => Ok(
                            with_block(st, BlockRecords { branches: b.branches.push(rec), ..b }),
                        ),
                        None => Ok(warn(st, line_label(lineno) + "malformed BRDA skipped: "@ + line)),
                    },
                }
            } else if tag == "FNF"@ || tag == "FNH"@ || tag == "BRF"@ || tag == "BRH"@ {
                match st.open {
                    None => Ok(warn(st, line_label(lineno) + tag + " before SF skipped"@)),
                    Some(b) => match parse_unsigned(trim(rest), u64::MAX as nat) {
                        Some(n) => Ok(
                            with_block(
                                st,
                                if tag == "FNF"@ {
                                    BlockRecords { fnf: Some(n as u64), ..b }
                                } else if tag == "FNH"@ {
                                    BlockRecords { fnh: Some(n as u64), ..b }
                                } else if tag == "BRF"@ {
                                    BlockRecords { brf: Some(n as u64), ..b }
                                } else {
                                    BlockRecords { brh: Some(n as u64), ..b }
                                },
                            ),
                        ),
                        None => Ok(
                            warn(
                                st,
                                line_label(lineno) + tag + " has invalid count '"@ + rest + "'"@,
                            ),
                        ),
                    },
                }
            } else {
                Ok(st)
            },
        }
    }
}

/// The walk over the given lines; line numbers start at 1.
pub open spec fn lcov_walk(ls: Seq<Seq<char>>, root: Seq<char>) -> Result<LcovRead, (nat, Seq<char>)>
    decreases ls.len(),
{
    if ls.len() == 0 {
        Ok(LcovRead { open: None, kept: seq![], warnings: seq![] })
    } else {
        match lcov_walk(ls.drop_last(), root) {
            Ok(st) => lcov_step(st, ls.len(), ls.last(), root),
            Err(e) => Err(e),
        }
    }
}

/// The whole tracefile read: an open block at the end is an error at the
/// last line.
pub open spec fn lcov_read(input: Seq<char>, root: Seq<char>) -> Result<LcovRead, (nat, Seq<char>)> {
    let ls = crate::text::lines(input);
    match lcov_walk(ls, root) {
        Ok(st) => match st.open {
            Some(b) => Err(
                (
                    ls.len(),
                    "unterminated record for '"@ + b.raw_path + "' (missing end_of_record)"@,
                ),
            ),
            None => Ok(st),
        },
        Err(e) => Err(e),
    }
}

/// All line records kept for `path`, in order.
pub open spec fn kept_lines(kept: Seq<KeptBlock>, path: Seq<char>) -> Seq<LineHit>
    decreases kept.len(),
{
    if kept.len() == 0 {
        seq![]
    } else if kept.last().0 == path {
        kept_lines(kept.drop_last(), path) + kept.last().1
    } else {
        kept_lines(kept.drop_last(), path)
    }
}

pub open spec fn kept_branches(kept: Seq<KeptBlock>, path: Seq<char>) -> Seq<BranchRecord>
    decreases kept.len(),
{
    if kept.len() == 0 {
        seq![]
    } else if kept.last().0 == path {
        kept_branches(kept.drop_last(), path) + kept.last().2
    } else {
        kept_branches(kept.drop_last(), path)
    }
}

pub open spec fn kept_functions(kept: Seq<KeptBlock>, path: Seq<char>) -> Seq<FunctionRecord>
    decreases kept.len(),
{
    if kept.len() == 0 {
        seq![]
    } else if kept.last().0 == path {
        kept_functions(kept.drop_last(), path) + kept.last().3
    } else {
        kept_functions(kept.drop_last(), path)
    }
}

pub open spec fn kept_has(kept: Seq<KeptBlock>, path: Seq<char>) -> bool {
    exists|k: int| 0 <= k < kept.len() && (#[trigger] kept[k]).0 == path
}

/// One file per kept path, in path order, each the merge of every record
/// kept for it, its language read from the path.
pub open spec fn lcov_files(files: Seq<FileCoverage>, kept: Seq<KeptBlock>) -> bool {
    &&& paths_sorted(files)
    &&& forall|i: int|
        0 <= i < files.len() ==> {
            let p = (#[trigger] files[i]).path@;
            &&& kept_has(kept, p)
            &&& files[i].language == language_of(p)
            &&& files[i].is_normal()
            &&& lines_merged(files[i].line_hits@, kept_lines(kept, p))
            &&& branches_merged_rec(files[i].branches@, kept_branches(kept, p))
            &&& functions_merged_rec(files[i].functions@, kept_functions(kept, p))
        }
    &&& forall|k: int| 0 <= k < kept.len() ==> has_path(files, (#[trigger] kept[k]).0)
}

// ---------------------------------------------------------------------------
// The reader, executable.
// ---------------------------------------------------------------------------

/// The tracefile's repository root, used to relativize absolute `SF:` paths.
#[derive(Debug)]
pub struct ParseOptions<'a> {
    /// Absolute repository root used to relativize absolute `SF:` paths.
    pub repo_root: &'a str,
}

#[derive(Debug)]
pub struct ParseOutcome {
    /// Sorted by path; same-path records are merged with hits summed.
    pub files: Vec<FileCoverage>,
    /// Non-fatal issues: count mismatches, malformed optional records,
    /// dropped out-of-root paths, etc.
    pub warnings: Vec<String>,
}

#[derive(Debug)]
pub enum LcovError {
    Malformed { line: usize, message: String },
}

impl LcovError {
    /// `lcov parse error at line {line}: {message}`.
    pub fn describe(&self) -> (r: String)
        ensures
            match self {
                LcovError::Malformed { line, message } => r@ == "lcov parse error at line "@ + dec(
                    *line as nat,
                ) + ": "@ + message@,
            },
    {
        match self {
            LcovError::Malformed { line, message } => {
                let mut out: Vec<char> = Vec::new();
                push_str(&mut out, "lcov parse error at line ");
                push_dec(&mut out, *line as u64);
                push_str(&mut out, ": ");
                push_str(&mut out, message.as_str());
                crate::text::string_of(&out)
            },
        }
    }
}

struct OpenBlock {
    raw_path: Vec<char>,
    lines: Vec<LineHit>,
    branches: Vec<BranchHit>,
    functions: Vec<FunctionHit>,
    lf: Option<u64>,
    lh: Option<u64>,
    fnf: Option<u64>,
    fnh: Option<u64>,
    brf: Option<u64>,
    brh: Option<u64>,
}

spec fn block_view(b: OpenBlock) -> BlockRecords {
    BlockRecords {
        raw_path: b.raw_path@,
        lines: b.lines@,
        branches: branch_records(b.branches@),
        functions: function_records(b.functions@),
        lf: b.lf,
        lh: b.lh,
        fnf: b.fnf,
        fnh: b.fnh,
        brf: b.brf,
        brh: b.brh,
    }
}

pub open spec fn kept_block(f: FileCoverage) -> KeptBlock {
    (f.path@, f.line_hits@, branch_records(f.branches@), function_records(f.functions@))
}

pub open spec fn kept_view(s: Seq<FileCoverage>) -> Seq<KeptBlock> {
    s.map_values(|f: FileCoverage| kept_block(f))
}

pub open spec fn string_views(s: Seq<String>) -> Seq<Seq<char>> {
    s.map_values(|w: String| w@)
}

struct Reader {
    open: Option<OpenBlock>,
    kept: Vec<FileCoverage>,
    warnings: Vec<String>,
}

spec fn reader_view(r: Reader) -> LcovRead {
    LcovRead {
        open: match r.open {
            Some(b) => Some(block_view(b)),
            None => None,
        },
        kept: kept_view(r.kept@),
        warnings: string_views(r.warnings@),
    }
}

fn push_warning(warnings: &mut Vec<String>, w: &Vec<char>)
    ensures
        string_views(final(warnings)@) == string_views(old(warnings)@).push(w@),
{
    let s = crate::text::string_of(w);
    warnings.push(s);
    assert(string_views(warnings@) =~= string_views(old(warnings)@).push(w@));
}

proof fn lemma_distinct_bounded(lines: Seq<LineHit>, fns: Seq<FunctionRecord>, brs: Seq<BranchRecord>)
    ensures
        distinct_lines(lines) <= lines.len(),
        distinct_covered_lines(lines) <= lines.len(),
        distinct_names(fns) <= fns.len(),
        distinct_hit_names(fns) <= fns.len(),
        distinct_keys(brs) <= brs.len(),
        distinct_taken_keys(brs) <= brs.len(),
    decreases lines.len() + fns.len() + brs.len(),
{
    if lines.len() > 0 {
        lemma_distinct_bounded(lines.drop_last(), fns, brs);
    } else if fns.len() > 0 {
        lemma_distinct_bounded(lines, fns.drop_last(), brs);
    } else if brs.len() > 0 {
        lemma_distinct_bounded(lines, fns, brs.drop_last());
    }
}

fn count_lines(lines: &Vec<LineHit>) -> (r: (u64, u64))
    ensures
        r.0 == distinct_lines(lines@),
        r.1 == distinct_covered_lines(lines@),
{
    let mut n: u64 = 0;
    let mut c: u64 = 0;
    let mut i: usize = 0;
    while i < lines.len()
        invariant
            i <= lines@.len(),
            n == distinct_lines(lines@.take(i as int)),
            c == distinct_covered_lines(lines@.take(i as int)),
        decreases lines@.len() - i,
    {
        let ghost pre = lines@.take(i as int);
        assert(lines@.take(i + 1).drop_last() =~= pre);
        proof {
            lemma_distinct_bounded(pre, seq![], seq![]);
        }
        let cur = lines[i];
        let mut seen = false;
        let mut seen_hit = false;
        let mut j: usize = 0;
        while j < i
            invariant
                j <= i < lines@.len(),
                pre == lines@.take(i as int),
                cur == lines@[i as int],
                seen == exists|k: int| 0 <= k < j && pre[k].line == cur.line,
                seen_hit == exists|k: int| 0 <= k < j && pre[k].line == cur.line && pre[k].hits > 0,
            decreases i - j,
        {
            assert(pre[j as int] == lines@[j as int]);
            if lines[j].line == cur.line {
                seen = true;
                if lines[j].hits > 0 {
                    seen_hit = true;
                }
            }
            j += 1;
        }
        if !seen {
            n += 1;
        }
        if cur.hits > 0 && !seen_hit {
            c += 1;
        }
        i += 1;
    }
    assert(lines@.take(i as int) =~= lines@);
    (n, c)
}

fn count_functions(functions: &Vec<FunctionHit>) -> (r: (u64, u64))
    ensures
        r.0 == distinct_names(function_records(functions@)),
        r.1 == distinct_hit_names(function_records(functions@)),
{
    let ghost recs = function_records(functions@);
    let mut n: u64 = 0;
    let mut c: u64 = 0;
    let mut i: usize = 0;
    while i < functions.len()
        invariant
            i <= functions@.len(),
            recs == function_records(functions@),
            recs.len() == functions@.len(),
            n == distinct_names(recs.take(i as int)),
            c == distinct_hit_names(recs.take(i as int)),
        decreases functions@.len() - i,
    {
        let ghost pre = recs.take(i as int);
        assert(recs.take(i + 1).drop_last() =~= pre);
        assert(recs.take(i + 1).last() == recs[i as int]);
        proof {
            lemma_distinct_bounded(seq![], pre, seq![]);
        }
        let name = chars_of(functions[i].name.as_str());
        let hits = functions[i].hits;
        let mut seen = false;
        let mut seen_hit = false;
        let mut j: usize = 0;
        while j < i
            invariant
                j <= i < functions@.len(),
                recs == function_records(functions@),
                recs.len() == functions@.len(),
                pre == recs.take(i as int),
                name@ == recs[i as int].0,
                seen == exists|k: int| 0 <= k < j && pre[k].0 == name@,
                seen_hit == exists|k: int| 0 <= k < j && pre[k].0 == name@ && pre[k].2 > 0,
            decreases i - j,
        {
            let other = chars_of(functions[j].name.as_str());
            assert(pre[j as int] == recs[j as int]);
            if crate::text::seq_eq(&other, &name) {
                seen = true;
                if functions[j].hits > 0 {
                    seen_hit = true;
                }
            }
            j += 1;
        }
        if !seen {
            n += 1;
        }
        if hits > 0 && !seen_hit {
            c += 1;
        }
        i += 1;
    }
    assert(recs.take(i as int) =~= recs);
    (n, c)
}

fn count_branches(branches: &Vec<BranchHit>) -> (r: (u64, u64))
    ensures
        r.0 == distinct_keys(branch_records(branches@)),
        r.1 == distinct_taken_keys(branch_records(branches@)),
{
    let ghost recs = branch_records(branches@);
    let mut n: u64 = 0;
    let mut c: u64 = 0;
    let mut i: usize = 0;
    while i < branches.len()
        invariant
            i <= branches@.len(),
            recs == branch_records(branches@),
            recs.len() == branches@.len(),
            n == distinct_keys(recs.take(i as int)),
            c == distinct_taken_keys(recs.take(i as int)),
        decreases branches@.len() - i,
    {
        let ghost pre = recs.take(i as int);
        assert(recs.take(i + 1).drop_last() =~= pre);
        assert(recs.take(i + 1).last() == recs[i as int]);
        proof {
            lemma_distinct_bounded(seq![], seq![], pre);
        }
        let b = &branches[i];
        let taken = b.is_covered();
        let mut seen = false;
        let mut seen_taken = false;
        let mut j: usize = 0;
        while j < i
            invariant
                j <= i < branches@.len(),
                recs == branch_records(branches@),
                recs.len() == branches@.len(),
                pre == recs.take(i as int),
                *b == branches@[i as int],
                seen == exists|k: int| 0 <= k < j && same_key(pre[k], recs[i as int]),
                seen_taken == exists|k: int|
                    0 <= k < j && same_key(pre[k], recs[i as int]) && taken_once(pre[k]),
            decreases i - j,
        {
            assert(pre[j as int] == recs[j as int]);
            if crate::model::same_key_exec(&branches[j], b) {
                seen = true;
                if branches[j].is_covered() {
                    seen_taken = true;
                }
            }
            j += 1;
        }
        if !seen {
            n += 1;
        }
        if taken && !seen_taken {
            c += 1;
        }
        i += 1;
    }
    assert(recs.take(i as int) =~= recs);
    (n, c)
}

fn push_count_warning(
    warnings: &mut Vec<String>,
    path: &Vec<char>,
    tag: &str,
    records: &str,
    declared: Option<u64>,
    actual: u64,
)
    ensures
        string_views(final(warnings)@) == string_views(old(warnings)@) + count_warning(
            path@,
            tag@,
            records@,
            declared,
            actual as nat,
        ),
{
    match declared {
        Some(d) => {
            if d != actual {
                let mut w: Vec<char> = Vec::new();
                push_chars(&mut w, path);
                push_str(&mut w, ": ");
                push_str(&mut w, tag);
                push_str(&mut w, "=");
                push_dec(&mut w, d);
                push_str(&mut w, " disagrees with ");
                push_dec(&mut w, actual);
                push_str(&mut w, " ");
                push_str(&mut w, records);
                push_warning(warnings, &w);
                assert(seq![w@] =~= count_warning(path@, tag@, records@, declared, actual as nat));
            } else {
                assert(string_views(warnings@) =~= string_views(warnings@) + seq![]);
            }
        },
        None => {
            assert(string_views(warnings@) =~= string_views(warnings@) + seq![]);
        },
    }
}

#[verifier::spinoff_prover]
fn push_block_warnings(warnings: &mut Vec<String>, b: &OpenBlock)
    ensures
        string_views(final(warnings)@) == string_views(old(warnings)@) + block_warnings(
            block_view(*b),
        ),
{
    let ghost w0 = string_views(warnings@);
    let (executable, covered) = count_lines(&b.lines);
    let (functions_found, functions_hit) = count_functions(&b.functions);
    let (branches_found, branches_hit) = count_branches(&b.branches);
    push_count_warning(warnings, &b.raw_path, "LF", "DA lines", b.lf, executable);
    let ghost w1 = string_views(warnings@);
    push_count_warning(warnings, &b.raw_path, "LH", "covered DA lines", b.lh, covered);
    let ghost w2 = string_views(warnings@);
    push_count_warning(warnings, &b.raw_path, "FNF", "functions", b.fnf, functions_found);
    let ghost w3 = string_views(warnings@);
    push_count_warning(warnings, &b.raw_path, "FNH", "covered functions", b.fnh, functions_hit);
    let ghost w4 = string_views(warnings@);
    push_count_warning(warnings, &b.raw_path, "BRF", "branches", b.brf, branches_found);
    let ghost w5 = string_views(warnings@);
    push_count_warning(warnings, &b.raw_path, "BRH", "covered branches", b.brh, branches_hit);
    assert(string_views(warnings@) =~= w0 + block_warnings(block_view(*b)));
}

#[verifier::spinoff_prover]
fn finish_block(st: Reader, root: &str) -> (r: Reader)
    requires
        st.open is Some,
    ensures
        reader_view(r) == finish(reader_view(st), block_view(st.open->0), root@),
        r.open is None,
{
    let Reader { open, mut kept, mut warnings } = st;
    let b = open.unwrap();
    push_block_warnings(&mut warnings, &b);
    let raw = crate::text::string_of(&b.raw_path);
    match normalize_sf_path(raw.as_str(), root) {
        Some(path) => {
            let ghost k0 = kept@;
            let f = FileCoverage {
                path,
                language: Language::Unknown,
                line_hits: b.lines,
                branches: b.branches,
                functions: b.functions,
            };
            kept.push(f);
            assert(kept_view(kept@) =~= kept_view(k0).push(kept_block(f)));
            Reader { open: None, kept, warnings }
        },
        None => {
            let mut w: Vec<char> = Vec::new();
            push_chars(&mut w, &b.raw_path);
            push_str(&mut w, ": path resolves outside repo root, dropped");
            push_warning(&mut warnings, &w);
            Reader { open: None, kept, warnings }
        },
    }
}

fn read_da(rest: &Vec<char>) -> (r: Result<LineHit, Vec<char>>)
    ensures
        match da_record(rest@) {
            Ok(lh) => r == Ok::<LineHit, Vec<char>>(lh),
            Err(m) => r matches Err(v) && v@ == m,
        },
{
    let (line_field, after) = match crate::text::split_once_char(rest, ',') {
        Some((a, b)) => (a, Some(b)),
        None => (crate::text::slice_of(rest, 0, rest.len()), None),
    };
    assert(rest@.subrange(0, rest@.len() as int) =~= rest@);
    let line = match crate::text::parse_u32(&trimmed(&line_field)) {
        Some(v) => v,
        None => {
            let mut m: Vec<char> = Vec::new();
            push_str(&mut m, "DA has invalid line number '");
            push_chars(&mut m, &line_field);
            push_str(&mut m, "'");
            return Err(m);
        },
    };
    let b = match after {
        Some(b) => b,
        None => {
            let mut m: Vec<char> = Vec::new();
            push_str(&mut m, "DA missing hit count");
            assert(m@ =~= "DA missing hit count"@);
            return Err(m);
        },
    };
    let hits_field = match crate::text::split_once_char(&b, ',') {
        Some((h, _)) => h,
        None => b,
    };
    match crate::text::parse_u64(&trimmed(&hits_field)) {
        Some(hits) => Ok(LineHit { line, hits }),
        None => {
            let mut m: Vec<char> = Vec::new();
            push_str(&mut m, "DA has invalid hit count '");
            push_chars(&mut m, &hits_field);
            push_str(&mut m, "'");
            Err(m)
        },
    }
}

fn read_count(tag: &str, rest: &Vec<char>) -> (r: Result<u64, Vec<char>>)
    ensures
        match count_record(tag@, rest@) {
            Ok(n) => r == Ok::<u64, Vec<char>>(n),
            Err(m) => r matches Err(v) && v@ == m,
        },
{
    match crate::text::parse_u64(&trimmed(rest)) {
        Some(n) => Ok(n),
        None => {
            let mut m: Vec<char> = Vec::new();
            push_str(&mut m, tag);
            push_str(&mut m, " has invalid count '");
            push_chars(&mut m, rest);
            push_str(&mut m, "'");
            Err(m)
        },
    }
}

fn malformed(line: usize, message: &Vec<char>) -> (e: LcovError)
    ensures
        e matches LcovError::Malformed { line: l, message: m } && l == line && m@ == message@,
{
    LcovError::Malformed { line, message: crate::text::string_of(message) }
}

fn malformed_str(line: usize, message: &str) -> (e: LcovError)
    ensures
        e matches LcovError::Malformed { line: l, message: m } && l == line && m@ == message@,
{
    LcovError::Malformed { line, message: message.to_owned() }
}

/// `line N: ` followed by `text`.
fn labelled(lineno: usize, text: &Vec<char>) -> (w: Vec<char>)
    ensures
        w@ == line_label(lineno as nat) + text@,
{
    let mut w: Vec<char> = Vec::new();
    push_str(&mut w, "line ");
    push_dec(&mut w, lineno as u64);
    push_str(&mut w, ": ");
    push_chars(&mut w, text);
    w
}

fn text_of(s: &str) -> (v: Vec<char>)
    ensures
        v@ == s@,
{
    chars_of(s)
}

spec fn step_matches(r: Result<Reader, LcovError>, spec: Result<LcovRead, (nat, Seq<char>)>) -> bool {
    match spec {
        Ok(v) => r matches Ok(n) && reader_view(n) == v,
        Err((l, m)) => r matches Err(LcovError::Malformed { line, message }) && line == l
            && message@ == m,
    }
}

#[verifier::spinoff_prover]
#[verifier::rlimit(60)]
fn read_line(st: Reader, lineno: usize, raw: &Vec<char>, root: &str) -> (r: Result<Reader, LcovError>)
    ensures
        step_matches(r, lcov_step(reader_view(st), lineno as nat, raw@, root@)),
{
    let ghost sv = reader_view(st);
    let line = trimmed(raw);
    if line.len() == 0 {
        return Ok(st);
    }
    if crate::text::eq_str(&line, "end_of_record") {
        if st.open.is_some() {
            return Ok(finish_block(st, root));
        }
        return Err(malformed_str(lineno, "end_of_record without preceding SF"));
    }
    let (tag, rest) = match crate::text::split_once_char(&line, ':') {
        Some(p) => p,
        None => {
            let Reader { open, kept, mut warnings } = st;
            let mut t = text_of("unrecognized line skipped: ");
            push_chars(&mut t, &line);
            let w = labelled(lineno, &t);
            push_warning(&mut warnings, &w);
            proof {
                assert(w@ =~= line_label(lineno as nat) + "unrecognized line skipped: "@ + line@);
            }
            return Ok(Reader { open, kept, warnings });
        },
    };
    if crate::text::eq_str(&tag, "SF") {
        if st.open.is_some() {
            return Err(
                malformed_str(lineno, "SF while previous record is still open (missing end_of_record)"),
            );
        }
        let path = trimmed(&rest);
        if path.len() == 0 {
            return Err(malformed_str(lineno, "SF with empty path"));
        }
        let Reader { open: _, kept, warnings } = st;
        let b = OpenBlock {
            raw_path: path,
            lines: Vec::new(),
            branches: Vec::new(),
            functions: Vec::new(),
            lf: None,
            lh: None,
            fnf: None,
            fnh: None,
            brf: None,
            brh: None,
        };
        proof {
            assert(branch_records(b.branches@) =~= seq![]);
            assert(function_records(b.functions@) =~= seq![]);
        }
        return Ok(Reader { open: Some(b), kept, warnings });
    }
    if crate::text::eq_str(&tag, "DA") || crate::text::eq_str(&tag, "LF") || crate::text::eq_str(&tag, "LH") {
        let Reader { open, kept, warnings } = st;
        let mut b = match open {
            Some(b) => b,
            None => {
                let mut m = tag.clone();
                push_str(&mut m, " before SF");
                proof {
                    reveal_strlit("DA before SF");
                    reveal_strlit(" before SF");
                    reveal_strlit("DA");
                    reveal_strlit("LF before SF");
                    reveal_strlit("LF");
                    reveal_strlit("LH before SF");
                    reveal_strlit("LH");
                    if tag@ == "DA"@ {
                        assert(m@ =~= "DA before SF"@);
                    } else if tag@ == "LF"@ {
                        assert(m@ =~= "LF before SF"@);
                    } else {
                        assert(m@ =~= "LH before SF"@);
                    }
                }
                return Err(malformed(lineno, &m));
            },
        };
        if crate::text::eq_str(&tag, "DA") {
            match read_da(&rest) {
                Ok(lh) => {
                    b.lines.push(lh);
                },
                Err(m) => {
                    return Err(malformed(lineno, &m));
                },
            }
        } else if crate::text::eq_str(&tag, "LF") {
            match read_count("LF", &rest) {
                Ok(n) => {
                    b.lf = Some(n);
                },
                Err(m) => {
                    return Err(malformed(lineno, &m));
                },
            }
        } else {
            match read_count("LH", &rest) {
                Ok(n) => {
                    b.lh = Some(n);
                },
                Err(m) => {
                    return Err(malformed(lineno, &m));
                },
            }
        }
        return Ok(Reader { open: Some(b), kept, warnings });
    }
    let is_fn = crate::text::eq_str(&tag, "FN");
    let is_fnda = crate::text::eq_str(&tag, "FNDA");
    let is_brda = crate::text::eq_str(&tag, "BRDA");
    let is_fnf = crate::text::eq_str(&tag, "FNF");
    let is_fnh = crate::text::eq_str(&tag, "FNH");
    let is_brf = crate::text::eq_str(&tag, "BRF");
    let is_brh = crate::text::eq_str(&tag, "BRH");
    if !(is_fn || is_fnda || is_brda || is_fnf || is_fnh || is_brf || is_brh) {
        return Ok(st);
    }
    let Reader { open, kept, mut warnings } = st;
    let mut b = match open {
        Some(b) => b,
        None => {
            let mut t = tag.clone();
            push_str(&mut t, " before SF skipped");
            let w = labelled(lineno, &t);
            push_warning(&mut warnings, &w);
            proof {
                reveal_strlit("FN");
                reveal_strlit("FNDA");
                reveal_strlit("BRDA");
                reveal_strlit(" before SF skipped");
                reveal_strlit("FN before SF skipped");
                reveal_strlit("FNDA before SF skipped");
                reveal_strlit("BRDA before SF skipped");
                if is_fn {
                    assert(t@ =~= "FN before SF skipped"@);
                } else if is_fnda {
                    assert(t@ =~= "FNDA before SF skipped"@);
                } else if is_brda {
                    assert(t@ =~= "BRDA before SF skipped"@);
                }
                assert(w@ =~= line_label(lineno as nat) + tag@ + " before SF skipped"@);
            }
            return Ok(Reader { open: None, kept, warnings });
        },
    };
    let rest_str = crate::text::string_of(&rest);
    if is_fn {
        match parse_fn(rest_str.as_str()) {
            Some((start, name)) => {
                let ghost f0 = b.functions@;
                let f = FunctionHit { name, line: start, hits: 0 };
                b.functions.push(f);
                assert(function_records(b.functions@) =~= function_records(f0).push(
                    crate::model::function_record(f),
                ));
            },
            None => {
                let mut t = text_of("malformed FN skipped: ");
                push_chars(&mut t, &line);
                let w = labelled(lineno, &t);
                push_warning(&mut warnings, &w);
                assert(w@ =~= line_label(lineno as nat) + "malformed FN skipped: "@ + line@);
            },
        }
    } else if is_fnda {
        match parse_fnda(rest_str.as_str()) {
            Some((hits, name)) => {
                let ghost f0 = b.functions@;
                let f = FunctionHit { name, line: 0, hits };
                b.functions.push(f);
                assert(function_records(b.functions@) =~= function_records(f0).push(
                    crate::model::function_record(f),
                ));
            },
            None => {
                let mut t = text_of("malformed FNDA skipped: ");
                push_chars(&mut t, &line);
                let w = labelled(lineno, &t);
                push_warning(&mut warnings, &w);
                assert(w@ =~= line_label(lineno as nat) + "malformed FNDA skipped: "@ + line@);
            },
        }
    } else if is_brda {
        match parse_brda(rest_str.as_str()) {
            Some((line_no, block_id, branch_id, taken)) => {
                let ghost b0 = b.branches@;
                let br = BranchHit { line: line_no, block: block_id, branch: branch_id, taken };
                b.branches.push(br);
                assert(branch_records(b.branches@) =~= branch_records(b0).push(
                    crate::model::branch_record(br),
                ));
            },
            None => {
                let mut t = text_of("malformed BRDA skipped: ");
                push_chars(&mut t, &line);
                let w = labelled(lineno, &t);
                push_warning(&mut warnings, &w);
                assert(w@ =~= line_label(lineno as nat) + "malformed BRDA skipped: "@ + line@);
            },
        }
    } else {
        match crate::text::parse_u64(&trimmed(&rest)) {
            Some(n) => {
                if is_fnf {
                    b.fnf = Some(n);
                } else if is_fnh {
                    b.fnh = Some(n);
                } else if is_brf {
                    b.brf = Some(n);
                } else {
                    b.brh = Some(n);
                }
            },
            None => {
                let mut t = tag.clone();
                push_str(&mut t, " has invalid count '");
                push_chars(&mut t, &rest);
                push_str(&mut t, "'");
                let w = labelled(lineno, &t);
                push_warning(&mut warnings, &w);
                assert(w@ =~= line_label(lineno as nat) + tag@ + " has invalid count '"@ + rest@
                    + "'"@);
            },
        }
    }
    Ok(Reader { open: Some(b), kept, warnings })
}

proof fn lemma_kept_view(files: Seq<FileCoverage>, p: Seq<char>)
    ensures
        kept_lines(kept_view(files), p) == path_lines(files, p),
        kept_branches(kept_view(files), p) == branch_records(path_branches(files, p)),
        kept_functions(kept_view(files), p) == function_records(path_functions(files, p)),
        kept_has(kept_view(files), p) <==> has_path(files, p),
    decreases files.len(),
{
    if files.len() > 0 {
        let k = kept_view(files);
        assert(kept_view(files.drop_last()) =~= k.drop_last());
        lemma_kept_view(files.drop_last(), p);
        let f = files.last();
        if f.path@ == p {
            assert(branch_records(path_branches(files.drop_last(), p) + f.branches@) =~= branch_records(
                path_branches(files.drop_last(), p),
            ) + branch_records(f.branches@));
            assert(function_records(path_functions(files.drop_last(), p) + f.functions@)
                =~= function_records(path_functions(files.drop_last(), p)) + function_records(
                f.functions@,
            ));
        }
        if kept_has(k, p) {
            let j = choose|j: int| 0 <= j < k.len() && (#[trigger] k[j]).0 == p;
            assert(files[j].path@ == p);
        }
        if has_path(files, p) {
            let j = choose|j: int| 0 <= j < files.len() && files[j].path@ == p;
            assert(k[j].0 == p);
        }
    } else {
        assert(!has_path(files, p));
    }
}

fn build_files(kept: &Vec<FileCoverage>) -> (files: Vec<FileCoverage>)
    ensures
        lcov_files(files@, kept_view(kept@)),
{
    let groups = crate::model::group_files(kept);
    let mut files: Vec<FileCoverage> = Vec::new();
    let mut i: usize = 0;
    while i < groups.len()
        invariant
            i <= groups@.len(),
            files_grouped(groups@, kept@),
            files@.len() == i,
            forall|j: int| 0 <= j < i ==> (#[trigger] files@[j]).path@ == groups@[j].path@,
            forall|j: int|
                0 <= j < i ==> {
                    let p = (#[trigger] files@[j]).path@;
                    &&& kept_has(kept_view(kept@), p)
                    &&& files@[j].language == language_of(p)
                    &&& files@[j].is_normal()
                    &&& lines_merged(files@[j].line_hits@, kept_lines(kept_view(kept@), p))
                    &&& branches_merged_rec(files@[j].branches@, kept_branches(kept_view(kept@), p))
                    &&& functions_merged_rec(
                        files@[j].functions@,
                        kept_functions(kept_view(kept@), p),
                    )
                },
        decreases groups@.len() - i,
    {
        let g = &groups[i];
        let ghost p = g.path@;
        proof {
            lemma_kept_view(kept@, p);
        }
        let no_lines: Vec<LineHit> = Vec::new();
        let no_branches: Vec<BranchHit> = Vec::new();
        let no_functions: Vec<FunctionHit> = Vec::new();
        let lines = crate::model::copy_lines(&g.line_hits, &no_lines);
        let branches = crate::model::copy_branches(&g.branches, &no_branches);
        let functions = crate::model::copy_functions(&g.functions, &no_functions);
        assert(lines@ =~= g.line_hits@);
        assert(branches@ =~= g.branches@);
        assert(functions@ =~= g.functions@);
        let language = Language::from_path(g.path.as_str());
        let f = FileCoverage::detailed(g.path.clone(), language, lines, branches, functions);
        proof {
            crate::model::lemma_branches_merged_rec(f.branches@, g.branches@);
            crate::model::lemma_functions_merged_rec(f.functions@, g.functions@);
            crate::normal::lemma_lines_self_merged(f.line_hits@, lines@);
            crate::normal::lemma_branches_self_merged(f.branches@, branches@);
            crate::normal::lemma_functions_self_merged(f.functions@, functions@);
        }
        files.push(f);
        i += 1;
    }
    assert forall|a: int, b: int| 0 <= a < b < files@.len() implies crate::text::seq_lt(
        files@[a].path@,
        files@[b].path@,
    ) by {
        assert(files@[a].path@ == groups@[a].path@);
        assert(files@[b].path@ == groups@[b].path@);
    }
    assert forall|k: int| 0 <= k < kept_view(kept@).len() implies has_path(
        files@,
        (#[trigger] kept_view(kept@)[k]).0,
    ) by {
        assert(kept_view(kept@)[k].0 == kept@[k].path@);
        assert(has_path(groups@, kept@[k].path@));
        let j = choose|j: int| 0 <= j < groups@.len() && groups@[j].path@ == kept@[k].path@;
        assert(files@[j].path@ == groups@[j].path@);
    }
    files
}

/// Parses an LCOV tracefile: one file per repo-relative path, each merged
/// from every record given for it, with the warnings gathered on the way; a
/// malformed line record fails the parse at its line.
pub fn parse_lcov(input: &str, opts: &ParseOptions) -> (r: Result<ParseOutcome, LcovError>)
    ensures
        match lcov_read(input@, opts.repo_root@) {
            Ok(st) => r matches Ok(o) && string_views(o.warnings@) == st.warnings && lcov_files(
                o.files@,
                st.kept,
            ),
            Err((l, m)) => r matches Err(LcovError::Malformed { line, message }) && line == l
                && message@ == m,
        },
        r matches Ok(o) ==> forall|i: int|
            0 <= i < o.files@.len() ==> {
                let p = (#[trigger] o.files@[i]).path@;
                &&& crate::tracefile::clean_relative_path(p)
                &&& p[0] != '/'
                &&& crate::tracefile::free_of(p, '\\')
            },
{
    let cs = chars_of(input);
    let ls = crate::text::lines_of(&cs);
    let ghost views = ls@.map_values(|v: Vec<char>| v@);
    assert(views == crate::text::lines(input@));
    let mut st = Reader { open: None, kept: Vec::new(), warnings: Vec::new() };
    proof {
        assert(views.take(0) =~= Seq::<Seq<char>>::empty());
        assert(kept_view(st.kept@) =~= seq![]);
        assert(string_views(st.warnings@) =~= seq![]);
    }
    let mut i: usize = 0;
    while i < ls.len()
        invariant
            i <= ls@.len(),
            views == ls@.map_values(|v: Vec<char>| v@),
            views == crate::text::lines(input@),
            lcov_walk(views.take(i as int), opts.repo_root@) == Ok::<LcovRead, (nat, Seq<char>)>(
                reader_view(st),
            ),
        decreases ls@.len() - i,
    {
        assert(views.take(i + 1).drop_last() =~= views.take(i as int));
        assert(views.take(i + 1).last() == ls@[i as int]@);
        match read_line(st, i + 1, &ls[i], opts.repo_root) {
            Ok(next) => {
                st = next;
            },
            Err(e) => {
                proof {
                    lemma_walk_stays_err(views, opts.repo_root@, i + 1);
                }
                return Err(e);
            },
        }
        i += 1;
    }
    assert(views.take(i as int) =~= views);
    if st.open.is_some() {
        let b = st.open.unwrap();
        let mut m: Vec<char> = Vec::new();
        push_str(&mut m, "unterminated record for '");
        push_chars(&mut m, &b.raw_path);
        push_str(&mut m, "' (missing end_of_record)");
        return Err(malformed(ls.len(), &m));
    }
    let files = build_files(&st.kept);
    proof {
        crate::laws::law_tracefile_files(
            input@,
            opts.repo_root@,
            reader_view(st),
            files@,
        );
    }
    Ok(ParseOutcome { files, warnings: st.warnings })
}

proof fn lemma_walk_stays_err(ls: Seq<Seq<char>>, root: Seq<char>, k: int)
    requires
        0 <= k <= ls.len(),
        lcov_walk(ls.take(k), root) is Err,
    ensures
        lcov_walk(ls, root) == lcov_walk(ls.take(k), root),
    decreases ls.len() - k,
{
    if k < ls.len() {
        assert(ls.take(k + 1).drop_last() =~= ls.take(k));
        lemma_walk_stays_err(ls, root, k + 1);
    } else {
        assert(ls.take(k) =~= ls);
    }
}

} // verus!
