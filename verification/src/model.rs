//! The snapshot data model: per-file line, branch and function counts, and the
//! normalisation that keeps each list sorted and free of duplicates.
use vstd::prelude::*;

use crate::pct::{coverage_pct, coverage_pct_of};
use crate::text::{chars_of, eq_str, seq_lt, split, split_char};

verus! {

/// Current snapshot schema version.
pub const SCHEMA_VERSION: u32 = 1;

/// Source language of a covered file.
#[derive(Debug, Clone, Copy, PartialEq, Eq, Structural)]
pub enum Language {
    Rust,
    Python,
    Dart,
    Unknown,
}

/// The last normal component of a `/`-separated path, skipping empty and `.`
/// components (as `Path::file_name` reads them); `None` when there is none.
pub open spec fn last_component(parts: Seq<Seq<char>>) -> Option<Seq<char>>
    decreases parts.len(),
{
    if parts.len() == 0 {
        None
    } else if parts.last().len() == 0 || parts.last() == seq!['.'] {
        last_component(parts.drop_last())
    } else {
        Some(parts.last())
    }
}

/// `Path::file_name`: the last normal component, `None` for a path ending in `..`.
pub open spec fn file_name(path: Seq<char>) -> Option<Seq<char>> {
    match last_component(split(path, '/')) {
        Some(name) => if name == seq!['.', '.'] {
            None
        } else {
            Some(name)
        },
        None => None,
    }
}

/// `Path::extension`: the text after the last `.` of the file name, unless that
/// dot starts the name.
pub open spec fn extension(path: Seq<char>) -> Option<Seq<char>> {
    match file_name(path) {
        Some(name) => match crate::text::find_last(name, '.') {
            Some(i) => if i > 0 {
                Some(name.skip(i + 1))
            } else {
                None
            },
            None => None,
        },
        None => None,
    }
}

pub open spec fn language_of(path: Seq<char>) -> Language {
    match extension(path) {
        Some(ext) => if ext == seq!['r', 's'] {
            Language::Rust
        } else if ext == seq!['p', 'y'] {
            Language::Python
        } else if ext == seq!['d', 'a', 'r', 't'] {
            Language::Dart
        } else {
            Language::Unknown
        },
        None => Language::Unknown,
    }
}

fn last_component_of(parts: &Vec<Vec<char>>) -> (r: Option<usize>)
    ensures
        match last_component(parts@.map_values(|v: Vec<char>| v@)) {
            Some(name) => r is Some && r->0 < parts@.len() && parts@[r->0 as int]@ == name,
            None => r is None,
        },
{
    let ghost views = parts@.map_values(|v: Vec<char>| v@);
    let mut n = parts.len();
    assert(views.take(n as int) =~= views);
    while n > 0
        invariant
            n <= parts@.len(),
            views == parts@.map_values(|v: Vec<char>| v@),
            last_component(views) == last_component(views.take(n as int)),
        decreases n,
    {
        let part = &parts[n - 1];
        assert(views.take(n as int).last() == part@);
        assert(views.take(n as int).drop_last() =~= views.take(n - 1));
        let is_dot = part.len() == 1 && part[0] == '.';
        assert(is_dot == (part@ == seq!['.'])) by {
            if part@.len() == 1 && part@[0] == '.' {
                assert(part@ =~= seq!['.']);
            }
        }
        if part.len() != 0 && !is_dot {
            return Some(n - 1);
        }
        n -= 1;
    }
    assert(views.take(0) =~= Seq::<Seq<char>>::empty());
    None
}


/// Execution count for a single line.
#[derive(Debug, Clone, Copy, PartialEq, Eq, Structural)]
pub struct LineHit {
    /// 1-based line number.
    pub line: u32,
    /// Execution count (LCOV `DA` count).
    pub hits: u64,
}

/// Outcome count for a single branch of a decision point (LCOV `BRDA`).
#[derive(Debug, Clone, PartialEq, Eq)]
pub struct BranchHit {
    /// 1-based line number.
    pub line: u32,
    /// LCOV `BRDA` block identifier, kept verbatim.
    pub block: String,
    /// LCOV `BRDA` branch identifier or expression, kept verbatim.
    pub branch: String,
    /// Times the branch was taken; `None` when the decision point was never
    /// evaluated (LCOV `-`).
    pub taken: Option<u64>,
}

/// Execution count for a single function (LCOV `FN`/`FNDA`).
#[derive(Debug, Clone, PartialEq, Eq)]
pub struct FunctionHit {
    pub name: String,
    /// 1-based line of the function start; 0 when the report omitted it.
    pub line: u32,
    pub hits: u64,
}

/// `n` saturated at `u64::MAX`.
pub open spec fn clamp(n: int) -> int {
    if n > u64::MAX {
        u64::MAX as int
    } else {
        n
    }
}

pub open spec fn sat_add(a: u64, b: u64) -> u64 {
    clamp(a + b) as u64
}

/// The LCOV merge rule for `BRDA` taken counts.
pub open spec fn merge_taken_spec(a: Option<u64>, b: Option<u64>) -> Option<u64> {
    match (a, b) {
        (None, other) => other,
        (other, None) => other,
        (Some(x), Some(y)) => Some(sat_add(x, y)),
    }
}

impl BranchHit {
    /// A branch counts as covered only when it was taken at least once.
    pub fn is_covered(&self) -> (r: bool)
        ensures
            r == (self.taken matches Some(t) && t > 0),
    {
        match self.taken {
            Some(t) => t > 0,
            None => false,
        }
    }

    /// LCOV tracefile merge rule for `BRDA` taken counts: `-` (never
    /// evaluated) merges as the other side; two counts sum (saturating).
    pub fn merge_taken(a: Option<u64>, b: Option<u64>) -> (r: Option<u64>)
        ensures
            r == merge_taken_spec(a, b),
    {
        match (a, b) {
            (None, other) => other,
            (other, None) => other,
            (Some(x), Some(y)) => Some(x.saturating_add(y)),
        }
    }
}

// ---------------------------------------------------------------------------
// Normalised lines: sorted by line, one entry per line, hits summed.
// ---------------------------------------------------------------------------

/// Sum of the hits recorded for `line`.
pub open spec fn line_total(s: Seq<LineHit>, line: u32) -> int
    decreases s.len(),
{
    if s.len() == 0 {
        0
    } else {
        line_total(s.drop_last(), line) + if s.last().line == line {
            s.last().hits as int
        } else {
            0
        }
    }
}

pub open spec fn has_line(s: Seq<LineHit>, line: u32) -> bool {
    exists|i: int| 0 <= i < s.len() && s[i].line == line
}

pub open spec fn lines_sorted(s: Seq<LineHit>) -> bool {
    forall|i: int, j: int| 0 <= i < j < s.len() ==> s[i].line < s[j].line
}

/// `out` is `input` merged: one entry per line of `input`, in ascending line
/// order, with the hits of that line summed (saturating).
pub open spec fn lines_merged(out: Seq<LineHit>, input: Seq<LineHit>) -> bool {
    &&& lines_sorted(out)
    &&& forall|i: int|
        0 <= i < out.len() ==> has_line(input, #[trigger] out[i].line) && out[i].hits == clamp(
            line_total(input, out[i].line),
        )
    &&& forall|l: u32| has_line(input, l) ==> has_line(out, l)
}

proof fn lemma_line_total_absent(s: Seq<LineHit>, line: u32)
    requires
        !has_line(s, line),
    ensures
        line_total(s, line) == 0,
    decreases s.len(),
{
    if s.len() > 0 {
        assert(!has_line(s.drop_last(), line)) by {
            if has_line(s.drop_last(), line) {
                let i = choose|i: int| 0 <= i < s.len() - 1 && s.drop_last()[i].line == line;
                assert(s[i].line == line);
            }
        }
        assert(s[s.len() - 1].line != line);
        lemma_line_total_absent(s.drop_last(), line);
    }
}

/// First index whose line is not below `line`.
fn line_position(out: &Vec<LineHit>, line: u32) -> (p: usize)
    requires
        lines_sorted(out@),
    ensures
        p <= out@.len(),
        forall|i: int| 0 <= i < p ==> out@[i].line < line,
        forall|i: int| p <= i < out@.len() ==> out@[i].line >= line,
{
    let mut p: usize = 0;
    while p < out.len() && out[p].line < line
        invariant
            p <= out@.len(),
            lines_sorted(out@),
            forall|i: int| 0 <= i < p ==> out@[i].line < line,
        decreases out@.len() - p,
    {
        p += 1;
    }
    p
}

#[verifier::spinoff_prover]
#[verifier::rlimit(40)]
fn merge_lines(input: &Vec<LineHit>) -> (out: Vec<LineHit>)
    ensures
        lines_merged(out@, input@),
{
    let mut out: Vec<LineHit> = Vec::new();
    let mut k: usize = 0;
    while k < input.len()
        invariant
            k <= input@.len(),
            lines_merged(out@, input@.take(k as int)),
        decreases input@.len() - k,
    {
        let lh = input[k];
        let ghost pre = input@.take(k as int);
        let ghost post = input@.take(k + 1);
        let ghost old_out = out@;
        assert(post.drop_last() =~= pre);
        assert(post.last() == lh);
        assert forall|l: u32| l != lh.line implies line_total(post, l) == line_total(pre, l) by {}
        assert(line_total(post, lh.line) == line_total(pre, lh.line) + lh.hits);
        assert forall|l: u32| #[trigger] has_line(post, l) <==> (has_line(pre, l) || l == lh.line) by {
            if has_line(post, l) && l != lh.line {
                let i = choose|i: int| 0 <= i < post.len() && post[i].line == l;
                assert(pre[i].line == l);
            }
            if has_line(pre, l) {
                let i = choose|i: int| 0 <= i < pre.len() && pre[i].line == l;
                assert(post[i].line == l);
            }
            if l == lh.line {
                assert(post[post.len() - 1].line == l);
            }
        }
        let p = line_position(&out, lh.line);
        if p < out.len() && out[p].line == lh.line {
            let merged = LineHit { line: lh.line, hits: out[p].hits.saturating_add(lh.hits) };
            out.set(p, merged);
            assert forall|l: u32| has_line(post, l) implies has_line(out@, l) by {
                if l == lh.line {
                    assert(out@[p as int].line == l);
                } else {
                    let i = choose|i: int| 0 <= i < old_out.len() && old_out[i].line == l;
                    assert(out@[i].line == l);
                }
            }
        } else {
            out.insert(p, LineHit { line: lh.line, hits: lh.hits });
            assert forall|i: int| 0 <= i < out@.len() implies has_line(post, #[trigger] out@[i].line)
                && out@[i].hits == clamp(line_total(post, out@[i].line)) by {
                if i < p {
                    assert(out@[i] == old_out[i]);
                } else if i > p {
                    assert(out@[i] == old_out[i - 1]);
                } else {
                    assert(has_line(pre, lh.line) ==> has_line(old_out, lh.line));
                    if has_line(old_out, lh.line) {
                        let j = choose|j: int| 0 <= j < old_out.len() && old_out[j].line == lh.line;
                        assert(false);
                    }
                    lemma_line_total_absent(pre, lh.line);
                }
            }
            assert forall|l: u32| has_line(post, l) implies has_line(out@, l) by {
                if l == lh.line {
                    assert(out@[p as int].line == l);
                } else {
                    let i = choose|i: int| 0 <= i < old_out.len() && old_out[i].line == l;
                    if i < p {
                        assert(out@[i].line == l);
                    } else {
                        assert(out@[i + 1].line == l);
                    }
                }
            }
        }
        k += 1;
    }
    assert(input@.take(k as int) =~= input@);
    out
}


// ---------------------------------------------------------------------------
// Normalised branches: sorted by (line, block, branch), one entry per key,
// taken counts merged by the LCOV rule.
// ---------------------------------------------------------------------------

/// The order of `(line, block, branch)` keys, strings compared as `String` does.
pub open spec fn key_lt(al: u32, ab: Seq<char>, ar: Seq<char>, bl: u32, bb: Seq<char>, br: Seq<char>) -> bool {
    al < bl || (al == bl && (seq_lt(ab, bb) || (ab == bb && seq_lt(ar, br))))
}

pub open spec fn branch_lt(a: BranchHit, b: BranchHit) -> bool {
    key_lt(a.line, a.block@, a.branch@, b.line, b.block@, b.branch@)
}

pub open spec fn same_branch(a: BranchHit, b: BranchHit) -> bool {
    a.line == b.line && a.block@ == b.block@ && a.branch@ == b.branch@
}

proof fn lemma_branch_order(a: BranchHit, b: BranchHit, c: BranchHit)
    ensures
        branch_lt(a, b) || same_branch(a, b) || branch_lt(b, a),
        !(branch_lt(a, b) && branch_lt(b, a)),
        !(branch_lt(a, b) && same_branch(a, b)),
        branch_lt(a, b) && branch_lt(b, c) ==> branch_lt(a, c),
        same_branch(a, b) && branch_lt(b, c) ==> branch_lt(a, c),
{
    crate::text::lemma_seq_lt_trichotomy(a.block@, b.block@);
    crate::text::lemma_seq_lt_trichotomy(a.branch@, b.branch@);
    crate::text::lemma_seq_lt_irreflexive(a.block@);
    crate::text::lemma_seq_lt_irreflexive(a.branch@);
    if seq_lt(a.block@, b.block@) && seq_lt(b.block@, c.block@) {
        crate::text::lemma_seq_lt_transitive(a.block@, b.block@, c.block@);
    }
    if seq_lt(a.branch@, b.branch@) && seq_lt(b.branch@, c.branch@) {
        crate::text::lemma_seq_lt_transitive(a.branch@, b.branch@, c.branch@);
    }
}

/// The taken counts recorded for `k`'s key, merged in order by the LCOV rule.
pub open spec fn taken_total(s: Seq<BranchHit>, k: BranchHit) -> Option<u64>
    decreases s.len(),
{
    if s.len() == 0 {
        None
    } else if same_branch(s.last(), k) {
        merge_taken_spec(taken_total(s.drop_last(), k), s.last().taken)
    } else {
        taken_total(s.drop_last(), k)
    }
}

pub open spec fn has_branch(s: Seq<BranchHit>, k: BranchHit) -> bool {
    exists|i: int| 0 <= i < s.len() && same_branch(s[i], k)
}

pub open spec fn branches_sorted(s: Seq<BranchHit>) -> bool {
    forall|i: int, j: int| 0 <= i < j < s.len() ==> branch_lt(s[i], s[j])
}

/// `out` is `input` merged: one entry per key of `input`, in key order, with
/// the taken counts of that key merged.
pub open spec fn branches_merged(out: Seq<BranchHit>, input: Seq<BranchHit>) -> bool {
    &&& branches_sorted(out)
    &&& forall|i: int|
        0 <= i < out.len() ==> has_branch(input, #[trigger] out[i]) && out[i].taken
            == taken_total(input, out[i])
    &&& forall|j: int| 0 <= j < input.len() ==> has_branch(out, #[trigger] input[j])
}

proof fn lemma_taken_total_absent(s: Seq<BranchHit>, k: BranchHit)
    requires
        !has_branch(s, k),
    ensures
        taken_total(s, k) is None,
    decreases s.len(),
{
    if s.len() > 0 {
        assert(!has_branch(s.drop_last(), k)) by {
            if has_branch(s.drop_last(), k) {
                let i = choose|i: int| 0 <= i < s.len() - 1 && same_branch(s.drop_last()[i], k);
                assert(same_branch(s[i], k));
            }
        }
        assert(!same_branch(s[s.len() - 1], k));
        lemma_taken_total_absent(s.drop_last(), k);
    }
}

proof fn lemma_taken_total_same_key(s: Seq<BranchHit>, a: BranchHit, b: BranchHit)
    requires
        same_branch(a, b),
    ensures
        taken_total(s, a) == taken_total(s, b),
    decreases s.len(),
{
    if s.len() > 0 {
        lemma_taken_total_same_key(s.drop_last(), a, b);
    }
}

fn key_before(al: u32, ab: &[char], ar: &[char], bl: u32, bb: &[char], br: &[char]) -> (r: bool)
    ensures
        r == key_lt(al, ab@, ar@, bl, bb@, br@),
{
    if al != bl {
        return al < bl;
    }
    if crate::text::chars_lt(ab, bb) {
        return true;
    }
    if !crate::text::seq_eq(ab, bb) {
        return false;
    }
    crate::text::chars_lt(ar, br)
}

fn copy_branch(b: &BranchHit) -> (r: BranchHit)
    ensures
        r == *b,
{
    BranchHit { line: b.line, block: b.block.clone(), branch: b.branch.clone(), taken: b.taken }
}

/// First index whose key is not below `k`'s.
fn branch_position(out: &Vec<BranchHit>, k: &BranchHit) -> (p: usize)
    requires
        branches_sorted(out@),
    ensures
        p <= out@.len(),
        forall|i: int| 0 <= i < p ==> branch_lt(out@[i], *k),
        forall|i: int| p <= i < out@.len() ==> !branch_lt(out@[i], *k),
{
    let kb = chars_of(k.block.as_str());
    let kr = chars_of(k.branch.as_str());
    let mut p: usize = 0;
    while p < out.len()
        invariant
            p <= out@.len(),
            branches_sorted(out@),
            kb@ == k.block@,
            kr@ == k.branch@,
            forall|i: int| 0 <= i < p ==> branch_lt(out@[i], *k),
        decreases out@.len() - p,
    {
        let ob = chars_of(out[p].block.as_str());
        let or = chars_of(out[p].branch.as_str());
        if !key_before(out[p].line, &ob, &or, k.line, &kb, &kr) {
            assert forall|i: int| p <= i < out@.len() implies !branch_lt(out@[i], *k) by {
                lemma_branch_order(out@[p as int], out@[i], *k);
                lemma_branch_order(out@[i], out@[p as int], *k);
                lemma_branch_order(out@[i], *k, out@[p as int]);
            }
            return p;
        }
        p += 1;
    }
    p
}

proof fn lemma_branch_push(pre: Seq<BranchHit>, b: BranchHit)
    ensures
        forall|x: BranchHit| #[trigger]
            has_branch(pre.push(b), x) <==> (has_branch(pre, x) || same_branch(b, x)),
        forall|x: BranchHit| #[trigger]
            taken_total(pre.push(b), x) == if same_branch(b, x) {
                merge_taken_spec(taken_total(pre, x), b.taken)
            } else {
                taken_total(pre, x)
            },
{
    let post = pre.push(b);
    assert(post.drop_last() =~= pre);
    assert forall|x: BranchHit| #[trigger] has_branch(post, x) <==> (has_branch(pre, x)
        || same_branch(b, x)) by {
        if has_branch(post, x) && !same_branch(b, x) {
            let i = choose|i: int| 0 <= i < post.len() && same_branch(post[i], x);
            assert(same_branch(pre[i], x));
        }
        if has_branch(pre, x) {
            let i = choose|i: int| 0 <= i < pre.len() && same_branch(pre[i], x);
            assert(same_branch(post[i], x));
        }
        if same_branch(b, x) {
            assert(same_branch(post[post.len() - 1], x));
        }
    }
    assert forall|x: BranchHit| #[trigger]
        taken_total(post, x) == if same_branch(b, x) {
            merge_taken_spec(taken_total(pre, x), b.taken)
        } else {
            taken_total(pre, x)
        } by {
        assert(post.last() == b);
    }
}

#[verifier::spinoff_prover]
proof fn lemma_branch_update(
    old_out: Seq<BranchHit>,
    pre: Seq<BranchHit>,
    b: BranchHit,
    p: int,
    nb: BranchHit,
)
    requires
        branches_merged(old_out, pre),
        0 <= p < old_out.len(),
        same_branch(old_out[p], b),
        same_branch(nb, b),
        nb.taken == merge_taken_spec(old_out[p].taken, b.taken),
    ensures
        branches_merged(old_out.update(p, nb), pre.push(b)),
{
    let out = old_out.update(p, nb);
    let post = pre.push(b);
    lemma_branch_push(pre, b);
    assert forall|i: int| 0 <= i < out.len() && i != p implies !same_branch(old_out[i], b) by {
        lemma_branch_order(old_out[i], b, b);
        lemma_branch_order(b, old_out[i], b);
        if i < p {
            assert(branch_lt(old_out[i], old_out[p]));
            lemma_branch_order(old_out[i], old_out[p], b);
            lemma_branch_order(b, old_out[p], old_out[i]);
        } else {
            assert(branch_lt(old_out[p], old_out[i]));
            lemma_branch_order(b, old_out[p], old_out[i]);
        }
    }
    assert forall|i: int, j: int| 0 <= i < j < out.len() implies branch_lt(out[i], out[j]) by {
        assert(branch_lt(old_out[i], old_out[j]));
        if i == p {
            lemma_branch_order(nb, old_out[p], old_out[j]);
        }
        if j == p {
            lemma_branch_order(old_out[i], old_out[p], nb);
            lemma_branch_order(nb, old_out[p], old_out[p]);
            crate::text::lemma_seq_lt_trichotomy(old_out[i].block@, nb.block@);
        }
    }
    assert forall|i: int| 0 <= i < out.len() implies has_branch(post, #[trigger] out[i])
        && out[i].taken == taken_total(post, out[i]) by {
        if i == p {
            lemma_taken_total_same_key(pre, old_out[p], b);
            lemma_taken_total_same_key(pre, nb, b);
            lemma_taken_total_same_key(post, nb, b);
            assert(same_branch(b, b));
        } else {
            assert(out[i] == old_out[i]);
        }
    }
    assert forall|j: int| 0 <= j < post.len() implies has_branch(out, #[trigger] post[j]) by {
        if j < pre.len() {
            assert(pre[j] == post[j]);
            let i = choose|i: int| 0 <= i < old_out.len() && same_branch(old_out[i], pre[j]);
            if i != p {
                assert(out[i] == old_out[i]);
            } else {
                assert(same_branch(out[i], post[j]));
            }
        } else {
            assert(same_branch(out[p], post[j]));
        }
    }
}

#[verifier::spinoff_prover]
proof fn lemma_branch_insert(old_out: Seq<BranchHit>, pre: Seq<BranchHit>, b: BranchHit, p: int)
    requires
        branches_merged(old_out, pre),
        0 <= p <= old_out.len(),
        forall|i: int| 0 <= i < p ==> branch_lt(old_out[i], b),
        forall|i: int| p <= i < old_out.len() ==> !branch_lt(old_out[i], b),
        !(p < old_out.len() && same_branch(old_out[p], b)),
    ensures
        branches_merged(old_out.insert(p, b), pre.push(b)),
{
    let out = old_out.insert(p, b);
    let post = pre.push(b);
    lemma_branch_push(pre, b);
    assert forall|i: int| 0 <= i < old_out.len() implies !same_branch(old_out[i], b) by {
        lemma_branch_order(old_out[i], b, b);
        if i > p {
            assert(branch_lt(old_out[p], old_out[i]));
            lemma_branch_order(old_out[p], b, b);
            lemma_branch_order(b, old_out[p], old_out[i]);
            lemma_branch_order(old_out[p], old_out[i], b);
        }
    }
    assert forall|i: int| p <= i < old_out.len() implies branch_lt(b, old_out[i]) by {
        lemma_branch_order(old_out[i], b, b);
    }
    assert(!has_branch(pre, b)) by {
        if has_branch(pre, b) {
            assert(has_branch(old_out, b));
        }
    }
    assert forall|i: int, j: int| 0 <= i < j < out.len() implies branch_lt(out[i], out[j]) by {
        if j < p {
            assert(branch_lt(old_out[i], old_out[j]));
        } else if j == p {
        } else if i < p {
            lemma_branch_order(old_out[i], b, old_out[j - 1]);
        } else if i == p {
        } else {
            assert(branch_lt(old_out[i - 1], old_out[j - 1]));
        }
    }
    assert forall|i: int| 0 <= i < out.len() implies has_branch(post, #[trigger] out[i])
        && out[i].taken == taken_total(post, out[i]) by {
        if i < p {
            assert(out[i] == old_out[i]);
            lemma_branch_order(old_out[i], b, b);
            lemma_branch_order(b, old_out[i], b);
        } else if i > p {
            assert(out[i] == old_out[i - 1]);
            lemma_branch_order(b, old_out[i - 1], b);
        } else {
            lemma_taken_total_absent(pre, b);
            assert(same_branch(b, b));
        }
    }
    assert forall|j: int| 0 <= j < post.len() implies has_branch(out, #[trigger] post[j]) by {
        if j < pre.len() {
            assert(pre[j] == post[j]);
            let i = choose|i: int| 0 <= i < old_out.len() && same_branch(old_out[i], pre[j]);
            if i < p {
                assert(out[i] == old_out[i]);
            } else {
                assert(out[i + 1] == old_out[i]);
            }
        } else {
            assert(same_branch(out[p], post[j]));
        }
    }
}

pub(crate) fn same_key_exec(a: &BranchHit, b: &BranchHit) -> (r: bool)
    ensures
        r == same_branch(*a, *b),
{
    let ab = chars_of(a.block.as_str());
    let ar = chars_of(a.branch.as_str());
    let bb = chars_of(b.block.as_str());
    let br = chars_of(b.branch.as_str());
    a.line == b.line && crate::text::seq_eq(&ab, &bb) && crate::text::seq_eq(&ar, &br)
}

#[verifier::spinoff_prover]
#[verifier::rlimit(40)]
fn merge_branches(input: &Vec<BranchHit>) -> (out: Vec<BranchHit>)
    ensures
        branches_merged(out@, input@),
{
    let mut out: Vec<BranchHit> = Vec::new();
    let mut k: usize = 0;
    while k < input.len()
        invariant
            k <= input@.len(),
            branches_merged(out@, input@.take(k as int)),
        decreases input@.len() - k,
    {
        let b = copy_branch(&input[k]);
        let ghost pre = input@.take(k as int);
        let ghost old_out = out@;
        assert(input@.take(k + 1) =~= pre.push(b));
        let p = branch_position(&out, &b);
        if p < out.len() && same_key_exec(&out[p], &b) {
            let merged = BranchHit {
                line: b.line,
                block: b.block.clone(),
                branch: b.branch.clone(),
                taken: BranchHit::merge_taken(out[p].taken, b.taken),
            };
            proof {
                lemma_branch_update(old_out, pre, b, p as int, merged);
            }
            out.set(p, merged);
        } else {
            proof {
                lemma_branch_insert(old_out, pre, b, p as int);
            }
            out.insert(p, b);
        }
        k += 1;
    }
    assert(input@.take(k as int) =~= input@);
    out
}

// ---------------------------------------------------------------------------
// Normalised functions: sorted by name, one entry per name, hits summed and
// the smallest known start line kept.
// ---------------------------------------------------------------------------

/// Sum of the hits recorded for the function `name`.
pub open spec fn function_hits(s: Seq<FunctionHit>, name: Seq<char>) -> int
    decreases s.len(),
{
    if s.len() == 0 {
        0
    } else {
        function_hits(s.drop_last(), name) + if s.last().name@ == name {
            s.last().hits as int
        } else {
            0
        }
    }
}

/// The smallest non-zero start line recorded for `name`, 0 when none is.
pub open spec fn function_line(s: Seq<FunctionHit>, name: Seq<char>) -> u32
    decreases s.len(),
{
    if s.len() == 0 {
        0
    } else {
        let acc = function_line(s.drop_last(), name);
        let f = s.last();
        if f.name@ == name && f.line != 0 && (acc == 0 || f.line < acc) {
            f.line
        } else {
            acc
        }
    }
}

pub open spec fn has_function(s: Seq<FunctionHit>, name: Seq<char>) -> bool {
    exists|i: int| 0 <= i < s.len() && s[i].name@ == name
}

pub open spec fn functions_sorted(s: Seq<FunctionHit>) -> bool {
    forall|i: int, j: int| 0 <= i < j < s.len() ==> seq_lt(s[i].name@, s[j].name@)
}

/// `out` is `input` merged: one entry per function name of `input`, in name
/// order, hits summed (saturating) and the smallest known start line kept.
pub open spec fn functions_merged(out: Seq<FunctionHit>, input: Seq<FunctionHit>) -> bool {
    &&& functions_sorted(out)
    &&& forall|i: int|
        0 <= i < out.len() ==> has_function(input, #[trigger] out[i].name@) && out[i].hits == clamp(
            function_hits(input, out[i].name@),
        ) && out[i].line == function_line(input, out[i].name@)
    &&& forall|j: int| 0 <= j < input.len() ==> has_function(out, #[trigger] input[j].name@)
}

proof fn lemma_function_absent(s: Seq<FunctionHit>, name: Seq<char>)
    requires
        !has_function(s, name),
    ensures
        function_hits(s, name) == 0,
        function_line(s, name) == 0,
    decreases s.len(),
{
    if s.len() > 0 {
        assert(!has_function(s.drop_last(), name)) by {
            if has_function(s.drop_last(), name) {
                let i = choose|i: int| 0 <= i < s.len() - 1 && s.drop_last()[i].name@ == name;
                assert(s[i].name@ == name);
            }
        }
        assert(s[s.len() - 1].name@ != name);
        lemma_function_absent(s.drop_last(), name);
    }
}

proof fn lemma_function_push(pre: Seq<FunctionHit>, f: FunctionHit)
    ensures
        forall|x: Seq<char>| #[trigger]
            has_function(pre.push(f), x) <==> (has_function(pre, x) || f.name@ == x),
        forall|x: Seq<char>| f.name@ != x ==> #[trigger] function_hits(pre.push(f), x)
            == function_hits(pre, x) && function_line(pre.push(f), x) == function_line(pre, x),
        function_hits(pre.push(f), f.name@) == function_hits(pre, f.name@) + f.hits,
        function_line(pre.push(f), f.name@) == {
            let acc = function_line(pre, f.name@);
            if f.line != 0 && (acc == 0 || f.line < acc) {
                f.line
            } else {
                acc
            }
        },
{
    let post = pre.push(f);
    assert(post.drop_last() =~= pre);
    assert(post.last() == f);
    assert forall|x: Seq<char>| #[trigger] has_function(post, x) <==> (has_function(pre, x)
        || f.name@ == x) by {
        if has_function(post, x) && f.name@ != x {
            let i = choose|i: int| 0 <= i < post.len() && post[i].name@ == x;
            assert(pre[i].name@ == x);
        }
        if has_function(pre, x) {
            let i = choose|i: int| 0 <= i < pre.len() && pre[i].name@ == x;
            assert(post[i].name@ == x);
        }
        if f.name@ == x {
            assert(post[post.len() - 1].name@ == x);
        }
    }
}

#[verifier::spinoff_prover]
proof fn lemma_function_update(
    old_out: Seq<FunctionHit>,
    pre: Seq<FunctionHit>,
    f: FunctionHit,
    p: int,
    nf: FunctionHit,
)
    requires
        functions_merged(old_out, pre),
        0 <= p < old_out.len(),
        old_out[p].name@ == f.name@,
        nf.name@ == f.name@,
        nf.hits == sat_add(old_out[p].hits, f.hits),
        nf.line == (if f.line != 0 && (old_out[p].line == 0 || f.line < old_out[p].line) {
            f.line
        } else {
            old_out[p].line
        }),
    ensures
        functions_merged(old_out.update(p, nf), pre.push(f)),
{
    let out = old_out.update(p, nf);
    let post = pre.push(f);
    lemma_function_push(pre, f);
    assert forall|i: int| 0 <= i < out.len() && i != p implies old_out[i].name@ != f.name@ by {
        crate::text::lemma_seq_lt_irreflexive(f.name@);
        if i < p {
            assert(seq_lt(old_out[i].name@, old_out[p].name@));
        } else {
            assert(seq_lt(old_out[p].name@, old_out[i].name@));
        }
    }
    assert forall|i: int| 0 <= i < out.len() implies has_function(post, #[trigger] out[i].name@)
        && out[i].hits == clamp(function_hits(post, out[i].name@)) && out[i].line
        == function_line(post, out[i].name@) by {
        if i != p {
            assert(out[i] == old_out[i]);
        } else {
            assert(has_function(pre, old_out[p].name@));
            assert(old_out[p].hits == clamp(function_hits(pre, f.name@)));
            assert(old_out[p].line == function_line(pre, f.name@));
            assert(out[i] == nf);
        }
    }
    assert forall|j: int| 0 <= j < post.len() implies has_function(out, #[trigger] post[j].name@) by {
        if j < pre.len() {
            assert(pre[j] == post[j]);
            let i = choose|i: int| 0 <= i < old_out.len() && old_out[i].name@ == pre[j].name@;
            assert(out[i].name@ == old_out[i].name@);
        } else {
            assert(out[p].name@ == post[j].name@);
        }
    }
}

#[verifier::spinoff_prover]
proof fn lemma_function_insert(old_out: Seq<FunctionHit>, pre: Seq<FunctionHit>, f: FunctionHit, p: int)
    requires
        functions_merged(old_out, pre),
        0 <= p <= old_out.len(),
        f.hits <= u64::MAX,
        forall|i: int| 0 <= i < p ==> seq_lt(old_out[i].name@, f.name@),
        forall|i: int| p <= i < old_out.len() ==> !seq_lt(old_out[i].name@, f.name@),
        !(p < old_out.len() && old_out[p].name@ == f.name@),
    ensures
        functions_merged(old_out.insert(p, f), pre.push(f)),
{
    let out = old_out.insert(p, f);
    let post = pre.push(f);
    lemma_function_push(pre, f);
    assert forall|i: int| p <= i < old_out.len() implies seq_lt(f.name@, old_out[i].name@) by {
        crate::text::lemma_seq_lt_trichotomy(f.name@, old_out[i].name@);
        if i > p {
            assert(seq_lt(old_out[p].name@, old_out[i].name@));
            crate::text::lemma_seq_lt_trichotomy(f.name@, old_out[p].name@);
            crate::text::lemma_seq_lt_transitive(f.name@, old_out[p].name@, old_out[i].name@);
        }
    }
    assert forall|i: int| 0 <= i < old_out.len() implies old_out[i].name@ != f.name@ by {
        crate::text::lemma_seq_lt_irreflexive(f.name@);
    }
    assert(!has_function(pre, f.name@)) by {
        if has_function(pre, f.name@) {
            assert(has_function(old_out, f.name@));
        }
    }
    assert forall|i: int, j: int| 0 <= i < j < out.len() implies seq_lt(out[i].name@, out[j].name@) by {
        if j < p {
            assert(seq_lt(old_out[i].name@, old_out[j].name@));
        } else if j == p {
        } else if i < p {
            crate::text::lemma_seq_lt_transitive(old_out[i].name@, f.name@, old_out[j - 1].name@);
        } else if i == p {
        } else {
            assert(seq_lt(old_out[i - 1].name@, old_out[j - 1].name@));
        }
    }
    assert forall|i: int| 0 <= i < out.len() implies has_function(post, #[trigger] out[i].name@)
        && out[i].hits == clamp(function_hits(post, out[i].name@)) && out[i].line
        == function_line(post, out[i].name@) by {
        let k = if i < p { i } else { i - 1 };
        if i != p {
            assert(out[i] == old_out[k]);
            assert(has_function(pre, old_out[k].name@));
            assert(old_out[k].name@ != f.name@);
            assert(function_hits(post, old_out[k].name@) == function_hits(pre, old_out[k].name@));
        } else {
            lemma_function_absent(pre, f.name@);
        }
    }
    assert forall|j: int| 0 <= j < post.len() implies has_function(out, #[trigger] post[j].name@) by {
        if j < pre.len() {
            assert(pre[j] == post[j]);
            let i = choose|i: int| 0 <= i < old_out.len() && old_out[i].name@ == pre[j].name@;
            if i < p {
                assert(out[i] == old_out[i]);
            } else {
                assert(out[i + 1] == old_out[i]);
            }
        } else {
            assert(out[p].name@ == post[j].name@);
        }
    }
}

/// First index whose name is not below `name`.
fn function_position(out: &Vec<FunctionHit>, name: &[char]) -> (p: usize)
    requires
        functions_sorted(out@),
    ensures
        p <= out@.len(),
        forall|i: int| 0 <= i < p ==> seq_lt(out@[i].name@, name@),
        forall|i: int| p <= i < out@.len() ==> !seq_lt(out@[i].name@, name@),
{
    let mut p: usize = 0;
    while p < out.len()
        invariant
            p <= out@.len(),
            functions_sorted(out@),
            forall|i: int| 0 <= i < p ==> seq_lt(out@[i].name@, name@),
        decreases out@.len() - p,
    {
        let on = chars_of(out[p].name.as_str());
        if !crate::text::chars_lt(&on, name) {
            assert forall|i: int| p <= i < out@.len() implies !seq_lt(out@[i].name@, name@) by {
                if i > p {
                    assert(seq_lt(out@[p as int].name@, out@[i].name@));
                    crate::text::lemma_seq_lt_trichotomy(out@[p as int].name@, name@);
                    if seq_lt(out@[i].name@, name@) {
                        crate::text::lemma_seq_lt_transitive(
                            out@[p as int].name@,
                            out@[i].name@,
                            name@,
                        );
                    }
                }
            }
            return p;
        }
        p += 1;
    }
    p
}

#[verifier::spinoff_prover]
#[verifier::rlimit(40)]
fn merge_functions(input: &Vec<FunctionHit>) -> (out: Vec<FunctionHit>)
    ensures
        functions_merged(out@, input@),
{
    let mut out: Vec<FunctionHit> = Vec::new();
    let mut k: usize = 0;
    while k < input.len()
        invariant
            k <= input@.len(),
            functions_merged(out@, input@.take(k as int)),
        decreases input@.len() - k,
    {
        let f = FunctionHit {
            name: input[k].name.clone(),
            line: input[k].line,
            hits: input[k].hits,
        };
        let ghost pre = input@.take(k as int);
        let ghost old_out = out@;
        assert(f == input@[k as int]);
        assert(input@.take(k + 1) =~= pre.push(f));
        let name = chars_of(f.name.as_str());
        let p = function_position(&out, &name);
        let found = if p < out.len() {
            let on = chars_of(out[p].name.as_str());
            crate::text::seq_eq(&on, &name)
        } else {
            false
        };
        if found {
            let old_line = out[p].line;
            let line = if f.line != 0 && (old_line == 0 || f.line < old_line) {
                f.line
            } else {
                old_line
            };
            let merged = FunctionHit {
                name: f.name.clone(),
                line,
                hits: out[p].hits.saturating_add(f.hits),
            };
            proof {
                lemma_function_update(old_out, pre, f, p as int, merged);
            }
            out.set(p, merged);
        } else {
            proof {
                lemma_function_insert(old_out, pre, f, p as int);
            }
            out.insert(p, f);
        }
        k += 1;
    }
    assert(input@.take(k as int) =~= input@);
    out
}


// ---------------------------------------------------------------------------
// Files
// ---------------------------------------------------------------------------

/// Line coverage for one file.
///
/// `line_hits` is the canonical source of truth; executable/covered counts
/// are always derived from it, never stored.
#[derive(Debug, Clone, PartialEq, Eq)]
pub struct FileCoverage {
    /// Repo-root relative path with `/` separators.
    pub path: String,
    pub language: Language,
    /// Sorted by line, no duplicate lines (guaranteed by [`FileCoverage::new`]).
    pub line_hits: Vec<LineHit>,
    /// Sorted by (line, block, branch), no duplicates (guaranteed by
    /// [`FileCoverage::detailed`]).
    pub branches: Vec<BranchHit>,
    /// Sorted by name, no duplicate names (guaranteed by [`FileCoverage::detailed`]).
    pub functions: Vec<FunctionHit>,
}

pub open spec fn count_covered_lines(s: Seq<LineHit>) -> nat
    decreases s.len(),
{
    if s.len() == 0 {
        0
    } else {
        count_covered_lines(s.drop_last()) + if s.last().hits > 0 {
            1nat
        } else {
            0nat
        }
    }
}

pub open spec fn branch_covered(b: BranchHit) -> bool {
    b.taken matches Some(t) && t > 0
}

pub open spec fn count_covered_branches(s: Seq<BranchHit>) -> nat
    decreases s.len(),
{
    if s.len() == 0 {
        0
    } else {
        count_covered_branches(s.drop_last()) + if branch_covered(s.last()) {
            1nat
        } else {
            0nat
        }
    }
}

pub open spec fn count_covered_functions(s: Seq<FunctionHit>) -> nat
    decreases s.len(),
{
    if s.len() == 0 {
        0
    } else {
        count_covered_functions(s.drop_last()) + if s.last().hits > 0 {
            1nat
        } else {
            0nat
        }
    }
}

impl FileCoverage {
    /// Line coverage in hundredths of a percent; `None` without executable
    /// lines.
    pub fn coverage_pct(&self) -> (r: Option<u128>)
        ensures
            r == coverage_pct_of(self.covered_count() as nat, self.executable_count() as nat),
    {
        coverage_pct(self.covered_lines() as u64, self.executable_lines() as u64)
    }

    /// Branch coverage in hundredths of a percent; `None` without branches.
    pub fn branch_pct(&self) -> (r: Option<u128>)
        ensures
            r == coverage_pct_of(self.covered_branch_count() as nat, self.branch_count() as nat),
    {
        coverage_pct(self.covered_branches() as u64, self.total_branches() as u64)
    }

    /// Function coverage in hundredths of a percent; `None` without
    /// functions.
    pub fn function_pct(&self) -> (r: Option<u128>)
        ensures
            r == coverage_pct_of(
                self.covered_function_count() as nat,
                self.function_count() as nat,
            ),
    {
        coverage_pct(self.covered_functions() as u64, self.total_functions() as u64)
    }

    /// What `detailed` builds: every list normalised from the given raw lists.
    pub open spec fn normalised_from(
        self,
        path: Seq<char>,
        language: Language,
        line_hits: Seq<LineHit>,
        branches: Seq<BranchHit>,
        functions: Seq<FunctionHit>,
    ) -> bool {
        &&& self.path@ == path
        &&& self.language == language
        &&& lines_merged(self.line_hits@, line_hits)
        &&& branches_merged(self.branches@, branches)
        &&& functions_merged(self.functions@, functions)
    }

    /// The file is its own normal form: its records, merged again, give
    /// themselves back.
    pub open spec fn is_normal(self) -> bool {
        self.normalised_from(
            self.path@,
            self.language,
            self.line_hits@,
            self.branches@,
            self.functions@,
        )
    }

    pub open spec fn executable_count(self) -> u32 {
        self.line_hits@.len() as u32
    }

    pub open spec fn covered_count(self) -> u32 {
        count_covered_lines(self.line_hits@) as u32
    }

    pub open spec fn branch_count(self) -> u32 {
        self.branches@.len() as u32
    }

    pub open spec fn covered_branch_count(self) -> u32 {
        count_covered_branches(self.branches@) as u32
    }

    pub open spec fn function_count(self) -> u32 {
        self.functions@.len() as u32
    }

    pub open spec fn covered_function_count(self) -> u32 {
        count_covered_functions(self.functions@) as u32
    }

    /// Builds a line-only `FileCoverage`; see [`FileCoverage::detailed`].
    /// Its executable lines are the distinct lines `line_hits` names, its
    /// covered lines those that some record reports as executed.
    pub fn new(path: String, language: Language, line_hits: Vec<LineHit>) -> (r: Self)
        ensures
            r.normalised_from(path@, language, line_hits@, seq![], seq![]),
            r.is_normal(),
            r.line_hits@.len() == crate::normal::record_lines(line_hits@).len(),
            count_covered_lines(r.line_hits@) == crate::normal::hit_lines(line_hits@).len(),
            count_covered_lines(r.line_hits@) <= r.line_hits@.len(),
    {
        Self::detailed(path, language, line_hits, Vec::new(), Vec::new())
    }

    /// Builds a `FileCoverage`, enforcing invariants: `line_hits` sorted by
    /// line with duplicates merged by summing hits (saturating); `branches`
    /// sorted by (line, block, branch) with duplicate taken-counts merged
    /// (LCOV rule: `-` merges as the other side, counts sum); `functions`
    /// sorted by name with hits summed and the smallest start line kept.
    /// The result is its own normal form, so building again from its records
    /// gives the same file; its counts are the distinct lines and branch keys
    /// named, and those some record reports as executed or taken.
    pub fn detailed(
        path: String,
        language: Language,
        line_hits: Vec<LineHit>,
        branches: Vec<BranchHit>,
        functions: Vec<FunctionHit>,
    ) -> (r: Self)
        ensures
            r.normalised_from(path@, language, line_hits@, branches@, functions@),
            r.is_normal(),
            r.line_hits@.len() == crate::normal::record_lines(line_hits@).len(),
            count_covered_lines(r.line_hits@) == crate::normal::hit_lines(line_hits@).len(),
            count_covered_lines(r.line_hits@) <= r.line_hits@.len(),
            r.branches@.len() == crate::normal::record_keys(branches@).len(),
            count_covered_branches(r.branches@) == crate::normal::taken_keys(branches@).len(),
            count_covered_branches(r.branches@) <= r.branches@.len(),
            lines_merged(line_hits@, line_hits@) && branches_merged(branches@, branches@)
                && functions_merged(functions@, functions@) ==> r.line_hits@ == line_hits@
                && crate::normal::branch_views(r.branches@) == crate::normal::branch_views(branches@)
                && crate::normal::function_views(r.functions@) == crate::normal::function_views(
                functions@,
            ),
    {
        let r = FileCoverage {
            path,
            language,
            line_hits: merge_lines(&line_hits),
            branches: merge_branches(&branches),
            functions: merge_functions(&functions),
        };
        proof {
            crate::normal::lemma_lines_self_merged(r.line_hits@, line_hits@);
            crate::normal::lemma_branches_self_merged(r.branches@, branches@);
            crate::normal::lemma_functions_self_merged(r.functions@, functions@);
            crate::laws::law_line_counts(r.line_hits@, line_hits@);
            crate::laws::law_branch_counts(r.branches@, branches@);
            if lines_merged(line_hits@, line_hits@) && branches_merged(branches@, branches@)
                && functions_merged(functions@, functions@) {
                crate::normal::lemma_lines_merge_unique(r.line_hits@, line_hits@, line_hits@);
                crate::normal::lemma_branches_merge_unique(r.branches@, branches@, branches@);
                crate::normal::lemma_functions_merge_unique(r.functions@, functions@, functions@);
            }
        }
        r
    }

    /// Number of executable lines (lines with any `DA` record).
    pub fn executable_lines(&self) -> (r: u32)
        ensures
            r == self.executable_count(),
    {
        self.line_hits.len() as u32
    }

    /// Number of executable lines with at least one hit.
    pub fn covered_lines(&self) -> (r: u32)
        ensures
            r == self.covered_count(),
    {
        let mut n: usize = 0;
        let mut i: usize = 0;
        while i < self.line_hits.len()
            invariant
                i <= self.line_hits@.len(),
                n == count_covered_lines(self.line_hits@.take(i as int)),
                n <= i,
            decreases self.line_hits@.len() - i,
        {
            assert(self.line_hits@.take(i + 1).drop_last() =~= self.line_hits@.take(i as int));
            if self.line_hits[i].hits > 0 {
                n += 1;
            }
            i += 1;
        }
        assert(self.line_hits@.take(i as int) =~= self.line_hits@);
        n as u32
    }

    /// Number of branches (all `BRDA` outcomes, including never-evaluated).
    pub fn total_branches(&self) -> (r: u32)
        ensures
            r == self.branch_count(),
    {
        self.branches.len() as u32
    }

    /// Number of branches taken at least once.
    pub fn covered_branches(&self) -> (r: u32)
        ensures
            r == self.covered_branch_count(),
    {
        let mut n: usize = 0;
        let mut i: usize = 0;
        while i < self.branches.len()
            invariant
                i <= self.branches@.len(),
                n == count_covered_branches(self.branches@.take(i as int)),
                n <= i,
            decreases self.branches@.len() - i,
        {
            assert(self.branches@.take(i + 1).drop_last() =~= self.branches@.take(i as int));
            if self.branches[i].is_covered() {
                n += 1;
            }
            i += 1;
        }
        assert(self.branches@.take(i as int) =~= self.branches@);
        n as u32
    }

    /// Number of instrumented functions.
    pub fn total_functions(&self) -> (r: u32)
        ensures
            r == self.function_count(),
    {
        self.functions.len() as u32
    }

    /// Number of functions executed at least once.
    pub fn covered_functions(&self) -> (r: u32)
        ensures
            r == self.covered_function_count(),
    {
        let mut n: usize = 0;
        let mut i: usize = 0;
        while i < self.functions.len()
            invariant
                i <= self.functions@.len(),
                n == count_covered_functions(self.functions@.take(i as int)),
                n <= i,
            decreases self.functions@.len() - i,
        {
            assert(self.functions@.take(i + 1).drop_last() =~= self.functions@.take(i as int));
            if self.functions[i].hits > 0 {
                n += 1;
            }
            i += 1;
        }
        assert(self.functions@.take(i as int) =~= self.functions@);
        n as u32
    }
}


// ---------------------------------------------------------------------------
// Snapshots
// ---------------------------------------------------------------------------

/// Versions of the tools that produced a snapshot, for reproducibility.
#[derive(Debug, Clone, PartialEq, Eq)]
pub struct ToolVersions {
    pub badgers: String,
    pub cargo_llvm_cov: Option<String>,
    pub coverage_py: Option<String>,
}

/// Full coverage measurement for one commit.
#[derive(Debug, Clone, PartialEq, Eq)]
pub struct CoverageSnapshot {
    pub schema_version: u32,
    /// e.g. "jubilee-works/timetree-planner-server".
    pub repo: String,
    /// Full 40-char commit SHA.
    pub commit_sha: String,
    pub branch: Option<String>,
    pub pr_number: Option<u64>,
    /// RFC 3339 UTC timestamp.
    pub generated_at: String,
    pub tool_versions: ToolVersions,
    /// Sorted by path, no duplicate paths (guaranteed by [`CoverageSnapshot::new`]).
    pub files: Vec<FileCoverage>,
}

pub open spec fn has_path(files: Seq<FileCoverage>, path: Seq<char>) -> bool {
    exists|i: int| 0 <= i < files.len() && files[i].path@ == path
}

/// The language of the first file recorded at `path`.
pub open spec fn first_language(files: Seq<FileCoverage>, path: Seq<char>) -> Language
    decreases files.len(),
{
    if files.len() == 0 {
        Language::Unknown
    } else if has_path(files.drop_last(), path) {
        first_language(files.drop_last(), path)
    } else if files.last().path@ == path {
        files.last().language
    } else {
        Language::Unknown
    }
}

/// All raw line records of the files recorded at `path`, in order.
pub open spec fn path_lines(files: Seq<FileCoverage>, path: Seq<char>) -> Seq<LineHit>
    decreases files.len(),
{
    if files.len() == 0 {
        seq![]
    } else if files.last().path@ == path {
        path_lines(files.drop_last(), path) + files.last().line_hits@
    } else {
        path_lines(files.drop_last(), path)
    }
}

pub open spec fn path_branches(files: Seq<FileCoverage>, path: Seq<char>) -> Seq<BranchHit>
    decreases files.len(),
{
    if files.len() == 0 {
        seq![]
    } else if files.last().path@ == path {
        path_branches(files.drop_last(), path) + files.last().branches@
    } else {
        path_branches(files.drop_last(), path)
    }
}

pub open spec fn path_functions(files: Seq<FileCoverage>, path: Seq<char>) -> Seq<FunctionHit>
    decreases files.len(),
{
    if files.len() == 0 {
        seq![]
    } else if files.last().path@ == path {
        path_functions(files.drop_last(), path) + files.last().functions@
    } else {
        path_functions(files.drop_last(), path)
    }
}

pub open spec fn paths_sorted(files: Seq<FileCoverage>) -> bool {
    forall|i: int, j: int| 0 <= i < j < files.len() ==> seq_lt(files[i].path@, files[j].path@)
}

/// `out` holds one file per path of `input`, in path order; each is the
/// normalisation of every record given for its path, in the language of the
/// first file given for it.
pub open spec fn files_merged(out: Seq<FileCoverage>, input: Seq<FileCoverage>) -> bool {
    &&& paths_sorted(out)
    &&& forall|i: int|
        0 <= i < out.len() ==> has_path(input, #[trigger] out[i].path@) && out[i].normalised_from(
            out[i].path@,
            first_language(input, out[i].path@),
            path_lines(input, out[i].path@),
            path_branches(input, out[i].path@),
            path_functions(input, out[i].path@),
        )
    &&& forall|j: int| 0 <= j < input.len() ==> has_path(out, #[trigger] input[j].path@)
}

/// Raw groups: one entry per path, holding the concatenated raw records.
pub open spec fn files_grouped(out: Seq<FileCoverage>, input: Seq<FileCoverage>) -> bool {
    &&& paths_sorted(out)
    &&& forall|i: int|
        0 <= i < out.len() ==> has_path(input, #[trigger] out[i].path@) && out[i].language
            == first_language(input, out[i].path@) && out[i].line_hits@ == path_lines(
            input,
            out[i].path@,
        ) && out[i].branches@ == path_branches(input, out[i].path@) && out[i].functions@
            == path_functions(input, out[i].path@)
    &&& forall|j: int| 0 <= j < input.len() ==> has_path(out, #[trigger] input[j].path@)
}

#[verifier::spinoff_prover]
proof fn lemma_path_push(pre: Seq<FileCoverage>, f: FileCoverage)
    ensures
        forall|x: Seq<char>| #[trigger]
            has_path(pre.push(f), x) <==> (has_path(pre, x) || f.path@ == x),
        forall|x: Seq<char>|
            f.path@ != x ==> #[trigger] path_lines(pre.push(f), x) == path_lines(pre, x)
                && path_branches(pre.push(f), x) == path_branches(pre, x) && path_functions(
                pre.push(f),
                x,
            ) == path_functions(pre, x),
        forall|x: Seq<char>|
            f.path@ != x && has_path(pre, x) ==> #[trigger] first_language(pre.push(f), x)
                == first_language(pre, x),
        path_lines(pre.push(f), f.path@) == path_lines(pre, f.path@) + f.line_hits@,
        path_branches(pre.push(f), f.path@) == path_branches(pre, f.path@) + f.branches@,
        path_functions(pre.push(f), f.path@) == path_functions(pre, f.path@) + f.functions@,
        has_path(pre, f.path@) ==> first_language(pre.push(f), f.path@) == first_language(
            pre,
            f.path@,
        ),
        !has_path(pre, f.path@) ==> first_language(pre.push(f), f.path@) == f.language,
{
    let post = pre.push(f);
    assert(post.drop_last() =~= pre);
    assert(post.last() == f);
    assert forall|x: Seq<char>| #[trigger] has_path(post, x) <==> (has_path(pre, x) || f.path@
        == x) by {
        if has_path(post, x) && f.path@ != x {
            let i = choose|i: int| 0 <= i < post.len() && post[i].path@ == x;
            assert(pre[i].path@ == x);
        }
        if has_path(pre, x) {
            let i = choose|i: int| 0 <= i < pre.len() && pre[i].path@ == x;
            assert(post[i].path@ == x);
        }
        if f.path@ == x {
            assert(post[post.len() - 1].path@ == x);
        }
    }
    assert forall|x: Seq<char>| f.path@ != x implies #[trigger] path_lines(post, x) == path_lines(
        pre,
        x,
    ) && path_branches(post, x) == path_branches(pre, x) && path_functions(post, x)
        == path_functions(pre, x) by {}
    assert forall|x: Seq<char>| f.path@ != x && has_path(pre, x) implies #[trigger] first_language(
        post,
        x,
    ) == first_language(pre, x) by {}
}

pub(crate) fn copy_lines(a: &Vec<LineHit>, b: &Vec<LineHit>) -> (r: Vec<LineHit>)
    ensures
        r@ == a@ + b@,
{
    let mut r: Vec<LineHit> = Vec::new();
    let mut i: usize = 0;
    while i < a.len()
        invariant
            i <= a@.len(),
            r@ == a@.take(i as int),
        decreases a@.len() - i,
    {
        r.push(a[i]);
        i += 1;
        assert(r@ =~= a@.take(i as int));
    }
    let mut j: usize = 0;
    while j < b.len()
        invariant
            i == a@.len(),
            j <= b@.len(),
            r@ == a@ + b@.take(j as int),
        decreases b@.len() - j,
    {
        r.push(b[j]);
        j += 1;
        assert(r@ =~= a@ + b@.take(j as int));
    }
    assert(a@.take(i as int) =~= a@);
    assert(b@.take(j as int) =~= b@);
    r
}

pub(crate) fn copy_branches(a: &Vec<BranchHit>, b: &Vec<BranchHit>) -> (r: Vec<BranchHit>)
    ensures
        r@ == a@ + b@,
{
    let mut r: Vec<BranchHit> = Vec::new();
    let mut i: usize = 0;
    while i < a.len()
        invariant
            i <= a@.len(),
            r@ == a@.take(i as int),
        decreases a@.len() - i,
    {
        r.push(copy_branch(&a[i]));
        i += 1;
        assert(r@ =~= a@.take(i as int));
    }
    let mut j: usize = 0;
    while j < b.len()
        invariant
            i == a@.len(),
            j <= b@.len(),
            r@ == a@ + b@.take(j as int),
        decreases b@.len() - j,
    {
        r.push(copy_branch(&b[j]));
        j += 1;
        assert(r@ =~= a@ + b@.take(j as int));
    }
    assert(a@.take(i as int) =~= a@);
    assert(b@.take(j as int) =~= b@);
    r
}

fn copy_function(f: &FunctionHit) -> (r: FunctionHit)
    ensures
        r == *f,
{
    FunctionHit { name: f.name.clone(), line: f.line, hits: f.hits }
}

pub(crate) fn copy_functions(a: &Vec<FunctionHit>, b: &Vec<FunctionHit>) -> (r: Vec<FunctionHit>)
    ensures
        r@ == a@ + b@,
{
    let mut r: Vec<FunctionHit> = Vec::new();
    let mut i: usize = 0;
    while i < a.len()
        invariant
            i <= a@.len(),
            r@ == a@.take(i as int),
        decreases a@.len() - i,
    {
        r.push(copy_function(&a[i]));
        i += 1;
        assert(r@ =~= a@.take(i as int));
    }
    let mut j: usize = 0;
    while j < b.len()
        invariant
            i == a@.len(),
            j <= b@.len(),
            r@ == a@ + b@.take(j as int),
        decreases b@.len() - j,
    {
        r.push(copy_function(&b[j]));
        j += 1;
        assert(r@ =~= a@ + b@.take(j as int));
    }
    assert(a@.take(i as int) =~= a@);
    assert(b@.take(j as int) =~= b@);
    r
}

/// First index whose path is not below `path`.
fn path_position(out: &Vec<FileCoverage>, path: &[char]) -> (p: usize)
    requires
        paths_sorted(out@),
    ensures
        p <= out@.len(),
        forall|i: int| 0 <= i < p ==> seq_lt(out@[i].path@, path@),
        forall|i: int| p <= i < out@.len() ==> !seq_lt(out@[i].path@, path@),
{
    let mut p: usize = 0;
    while p < out.len()
        invariant
            p <= out@.len(),
            paths_sorted(out@),
            forall|i: int| 0 <= i < p ==> seq_lt(out@[i].path@, path@),
        decreases out@.len() - p,
    {
        let op = chars_of(out[p].path.as_str());
        if !crate::text::chars_lt(&op, path) {
            assert forall|i: int| p <= i < out@.len() implies !seq_lt(out@[i].path@, path@) by {
                if i > p {
                    assert(seq_lt(out@[p as int].path@, out@[i].path@));
                    crate::text::lemma_seq_lt_trichotomy(out@[p as int].path@, path@);
                    if seq_lt(out@[i].path@, path@) {
                        crate::text::lemma_seq_lt_transitive(
                            out@[p as int].path@,
                            out@[i].path@,
                            path@,
                        );
                    }
                }
            }
            return p;
        }
        p += 1;
    }
    p
}

#[verifier::spinoff_prover]
proof fn lemma_group_update(
    old_out: Seq<FileCoverage>,
    pre: Seq<FileCoverage>,
    f: FileCoverage,
    p: int,
    nf: FileCoverage,
)
    requires
        files_grouped(old_out, pre),
        0 <= p < old_out.len(),
        old_out[p].path@ == f.path@,
        nf.path@ == f.path@,
        nf.language == old_out[p].language,
        nf.line_hits@ == old_out[p].line_hits@ + f.line_hits@,
        nf.branches@ == old_out[p].branches@ + f.branches@,
        nf.functions@ == old_out[p].functions@ + f.functions@,
    ensures
        files_grouped(old_out.update(p, nf), pre.push(f)),
{
    let out = old_out.update(p, nf);
    let post = pre.push(f);
    lemma_path_push(pre, f);
    assert forall|i: int| 0 <= i < out.len() && i != p implies old_out[i].path@ != f.path@ by {
        crate::text::lemma_seq_lt_irreflexive(f.path@);
        if i < p {
            assert(seq_lt(old_out[i].path@, old_out[p].path@));
        } else {
            assert(seq_lt(old_out[p].path@, old_out[i].path@));
        }
    }
    assert forall|i: int| 0 <= i < out.len() implies has_path(post, #[trigger] out[i].path@)
        && out[i].language == first_language(post, out[i].path@) && out[i].line_hits@
        == path_lines(post, out[i].path@) && out[i].branches@ == path_branches(post, out[i].path@)
        && out[i].functions@ == path_functions(post, out[i].path@) by {
        if i != p {
            assert(out[i] == old_out[i]);
            assert(has_path(pre, old_out[i].path@));
        } else {
            assert(has_path(pre, old_out[p].path@));
            assert(out[i] == nf);
        }
    }
    assert forall|j: int| 0 <= j < post.len() implies has_path(out, #[trigger] post[j].path@) by {
        if j < pre.len() {
            assert(pre[j] == post[j]);
            let i = choose|i: int| 0 <= i < old_out.len() && old_out[i].path@ == pre[j].path@;
            assert(out[i].path@ == old_out[i].path@);
        } else {
            assert(out[p].path@ == post[j].path@);
        }
    }
}

#[verifier::spinoff_prover]
proof fn lemma_group_insert(
    old_out: Seq<FileCoverage>,
    pre: Seq<FileCoverage>,
    f: FileCoverage,
    p: int,
    g: FileCoverage,
)
    requires
        g.path@ == f.path@,
        g.language == f.language,
        g.line_hits@ == f.line_hits@,
        g.branches@ == f.branches@,
        g.functions@ == f.functions@,
        files_grouped(old_out, pre),
        0 <= p <= old_out.len(),
        forall|i: int| 0 <= i < p ==> seq_lt(old_out[i].path@, f.path@),
        forall|i: int| p <= i < old_out.len() ==> !seq_lt(old_out[i].path@, f.path@),
        !(p < old_out.len() && old_out[p].path@ == f.path@),
    ensures
        files_grouped(old_out.insert(p, g), pre.push(f)),
{
    let out = old_out.insert(p, g);
    let post = pre.push(f);
    lemma_path_push(pre, f);
    assert forall|i: int| p <= i < old_out.len() implies seq_lt(f.path@, old_out[i].path@) by {
        crate::text::lemma_seq_lt_trichotomy(f.path@, old_out[i].path@);
        if i > p {
            assert(seq_lt(old_out[p].path@, old_out[i].path@));
            crate::text::lemma_seq_lt_trichotomy(f.path@, old_out[p].path@);
            crate::text::lemma_seq_lt_transitive(f.path@, old_out[p].path@, old_out[i].path@);
        }
    }
    assert forall|i: int| 0 <= i < old_out.len() implies old_out[i].path@ != f.path@ by {
        crate::text::lemma_seq_lt_irreflexive(f.path@);
    }
    assert(!has_path(pre, f.path@)) by {
        if has_path(pre, f.path@) {
            assert(has_path(old_out, f.path@));
        }
    }
    assert(path_lines(pre, f.path@) =~= seq![]) by {
        lemma_path_absent(pre, f.path@);
    }
    assert(path_branches(pre, f.path@) =~= seq![]) by {
        lemma_path_absent(pre, f.path@);
    }
    assert(path_functions(pre, f.path@) =~= seq![]) by {
        lemma_path_absent(pre, f.path@);
    }
    assert(path_lines(post, f.path@) =~= f.line_hits@);
    assert(path_branches(post, f.path@) =~= f.branches@);
    assert(path_functions(post, f.path@) =~= f.functions@);
    assert forall|i: int, j: int| 0 <= i < j < out.len() implies seq_lt(out[i].path@, out[j].path@) by {
        if j < p {
            assert(seq_lt(old_out[i].path@, old_out[j].path@));
        } else if j == p {
        } else if i < p {
            crate::text::lemma_seq_lt_transitive(old_out[i].path@, f.path@, old_out[j - 1].path@);
        } else if i == p {
        } else {
            assert(seq_lt(old_out[i - 1].path@, old_out[j - 1].path@));
        }
    }
    assert forall|i: int| 0 <= i < out.len() implies has_path(post, #[trigger] out[i].path@)
        && out[i].language == first_language(post, out[i].path@) && out[i].line_hits@
        == path_lines(post, out[i].path@) && out[i].branches@ == path_branches(post, out[i].path@)
        && out[i].functions@ == path_functions(post, out[i].path@) by {
        let k = if i < p {
            i
        } else {
            i - 1
        };
        if i != p {
            let x = old_out[k].path@;
            assert(out[i] == old_out[k]);
            assert(has_path(pre, x));
            assert(x != f.path@);
            assert(old_out[k].language == first_language(pre, x));
            assert(first_language(post, x) == first_language(pre, x));
            assert(path_lines(post, x) == path_lines(pre, x));
            assert(path_branches(post, x) == path_branches(pre, x));
            assert(path_functions(post, x) == path_functions(pre, x));
            assert(has_path(post, x));
        } else {
            assert(out[i] == g);
            assert(has_path(post, f.path@));
            assert(first_language(post, f.path@) == f.language);
            assert(path_lines(post, f.path@) == g.line_hits@);
            assert(path_branches(post, f.path@) == g.branches@);
            assert(path_functions(post, f.path@) == g.functions@);
        }
    }
    assert forall|j: int| 0 <= j < post.len() implies has_path(out, #[trigger] post[j].path@) by {
        if j < pre.len() {
            assert(pre[j] == post[j]);
            let i = choose|i: int| 0 <= i < old_out.len() && old_out[i].path@ == pre[j].path@;
            if i < p {
                assert(out[i] == old_out[i]);
            } else {
                assert(out[i + 1] == old_out[i]);
            }
        } else {
            assert(out[p].path@ == post[j].path@);
        }
    }
}

proof fn lemma_path_absent(files: Seq<FileCoverage>, path: Seq<char>)
    requires
        !has_path(files, path),
    ensures
        path_lines(files, path) == Seq::<LineHit>::empty(),
        path_branches(files, path) == Seq::<BranchHit>::empty(),
        path_functions(files, path) == Seq::<FunctionHit>::empty(),
    decreases files.len(),
{
    if files.len() > 0 {
        assert(!has_path(files.drop_last(), path)) by {
            if has_path(files.drop_last(), path) {
                let i = choose|i: int|
                    0 <= i < files.len() - 1 && files.drop_last()[i].path@ == path;
                assert(files[i].path@ == path);
            }
        }
        assert(files[files.len() - 1].path@ != path);
        lemma_path_absent(files.drop_last(), path);
    }
}

#[verifier::spinoff_prover]
#[verifier::rlimit(40)]
pub(crate) fn group_files(input: &Vec<FileCoverage>) -> (out: Vec<FileCoverage>)
    ensures
        files_grouped(out@, input@),
{
    let mut out: Vec<FileCoverage> = Vec::new();
    let mut k: usize = 0;
    while k < input.len()
        invariant
            k <= input@.len(),
            files_grouped(out@, input@.take(k as int)),
        decreases input@.len() - k,
    {
        let src = &input[k];
        let empty_lines: Vec<LineHit> = Vec::new();
        let empty_branches: Vec<BranchHit> = Vec::new();
        let empty_functions: Vec<FunctionHit> = Vec::new();
        let f = FileCoverage {
            path: src.path.clone(),
            language: src.language,
            line_hits: copy_lines(&src.line_hits, &empty_lines),
            branches: copy_branches(&src.branches, &empty_branches),
            functions: copy_functions(&src.functions, &empty_functions),
        };
        assert(f.line_hits@ =~= src.line_hits@);
        assert(f.branches@ =~= src.branches@);
        assert(f.functions@ =~= src.functions@);
        let ghost pre = input@.take(k as int);
        let ghost old_out = out@;
        assert(input@.take(k + 1) =~= pre.push(*src));
        let path = chars_of(f.path.as_str());
        let p = path_position(&out, &path);
        let found = if p < out.len() {
            let op = chars_of(out[p].path.as_str());
            crate::text::seq_eq(&op, &path)
        } else {
            false
        };
        if found {
            let merged = FileCoverage {
                path: f.path.clone(),
                language: out[p].language,
                line_hits: copy_lines(&out[p].line_hits, &f.line_hits),
                branches: copy_branches(&out[p].branches, &f.branches),
                functions: copy_functions(&out[p].functions, &f.functions),
            };
            proof {
                lemma_group_update(old_out, pre, *src, p as int, merged);
            }
            out.set(p, merged);
        } else {
            proof {
                lemma_group_insert(old_out, pre, *src, p as int, f);
            }
            out.insert(p, f);
        }
        k += 1;
    }
    assert(input@.take(k as int) =~= input@);
    out
}


/// The per-file counts that snapshots total.
#[derive(Debug, Clone, Copy, PartialEq, Eq, Structural)]
pub enum Measure {
    ExecutableLines,
    CoveredLines,
    Branches,
    CoveredBranches,
    Functions,
    CoveredFunctions,
}

pub open spec fn measure_of(f: FileCoverage, m: Measure) -> u32 {
    match m {
        Measure::ExecutableLines => f.executable_count(),
        Measure::CoveredLines => f.covered_count(),
        Measure::Branches => f.branch_count(),
        Measure::CoveredBranches => f.covered_branch_count(),
        Measure::Functions => f.function_count(),
        Measure::CoveredFunctions => f.covered_function_count(),
    }
}

/// The sum of one per-file count over `files`.
pub open spec fn files_total(files: Seq<FileCoverage>, m: Measure) -> int
    decreases files.len(),
{
    if files.len() == 0 {
        0
    } else {
        files_total(files.drop_last(), m) + measure_of(files.last(), m)
    }
}

proof fn lemma_files_total_prefix(files: Seq<FileCoverage>, m: Measure, k: int)
    requires
        0 <= k <= files.len(),
    ensures
        files_total(files.take(k), m) <= files_total(files, m),
    decreases files.len(),
{
    if k < files.len() {
        assert(files.drop_last().take(k) =~= files.take(k));
        lemma_files_total_prefix(files.drop_last(), m, k);
    } else {
        assert(files.take(k) =~= files);
    }
}

fn measure(f: &FileCoverage, m: Measure) -> (r: u32)
    ensures
        r == measure_of(*f, m),
{
    match m {
        Measure::ExecutableLines => f.executable_lines(),
        Measure::CoveredLines => f.covered_lines(),
        Measure::Branches => f.total_branches(),
        Measure::CoveredBranches => f.covered_branches(),
        Measure::Functions => f.total_functions(),
        Measure::CoveredFunctions => f.covered_functions(),
    }
}

fn sum_measure(files: &Vec<FileCoverage>, m: Measure) -> (r: u64)
    requires
        files_total(files@, m) <= u64::MAX,
    ensures
        r == files_total(files@, m),
{
    let mut total: u64 = 0;
    let mut i: usize = 0;
    while i < files.len()
        invariant
            i <= files@.len(),
            files_total(files@, m) <= u64::MAX,
            total == files_total(files@.take(i as int), m),
        decreases files@.len() - i,
    {
        assert(files@.take(i + 1).drop_last() =~= files@.take(i as int));
        proof {
            lemma_files_total_prefix(files@, m, i + 1);
        }
        total = total + measure(&files[i], m) as u64;
        i += 1;
    }
    assert(files@.take(i as int) =~= files@);
    total
}

/// Whether the total of measure `m` over the files fits in a `u64`.
pub fn measure_total_fits(files: &Vec<FileCoverage>, m: Measure) -> (r: bool)
    ensures
        r == (files_total(files@, m) <= u64::MAX),
{
    let mut total: u64 = 0;
    let mut i: usize = 0;
    while i < files.len()
        invariant
            i <= files@.len(),
            total == files_total(files@.take(i as int), m),
        decreases files@.len() - i,
    {
        assert(files@.take(i + 1).drop_last() =~= files@.take(i as int));
        let x = measure(&files[i], m) as u64;
        if x > 18446744073709551615u64 - total {
            proof {
                lemma_files_total_prefix(files@, m, i + 1);
            }
            return false;
        }
        total = total + x;
        i += 1;
    }
    assert(files@.take(i as int) =~= files@);
    true
}

fn normalise_groups(groups: &Vec<FileCoverage>) -> (out: Vec<FileCoverage>)
    ensures
        out@.len() == groups@.len(),
        forall|i: int|
            0 <= i < out@.len() ==> (#[trigger] out@[i]).normalised_from(
                groups@[i].path@,
                groups@[i].language,
                groups@[i].line_hits@,
                groups@[i].branches@,
                groups@[i].functions@,
            ),
{
    let mut out: Vec<FileCoverage> = Vec::new();
    let mut i: usize = 0;
    while i < groups.len()
        invariant
            i <= groups@.len(),
            out@.len() == i,
            forall|j: int|
                0 <= j < i ==> (#[trigger] out@[j]).normalised_from(
                    groups@[j].path@,
                    groups@[j].language,
                    groups@[j].line_hits@,
                    groups@[j].branches@,
                    groups@[j].functions@,
                ),
        decreases groups@.len() - i,
    {
        let g = &groups[i];
        let no_lines: Vec<LineHit> = Vec::new();
        let no_branches: Vec<BranchHit> = Vec::new();
        let no_functions: Vec<FunctionHit> = Vec::new();
        let lines = copy_lines(&g.line_hits, &no_lines);
        let branches = copy_branches(&g.branches, &no_branches);
        let functions = copy_functions(&g.functions, &no_functions);
        assert(lines@ =~= g.line_hits@);
        assert(branches@ =~= g.branches@);
        assert(functions@ =~= g.functions@);
        out.push(FileCoverage::detailed(g.path.clone(), g.language, lines, branches, functions));
        i += 1;
    }
    out
}

impl CoverageSnapshot {
    /// Line coverage over all files in hundredths of a percent; `None`
    /// without executable lines.
    pub fn coverage_pct(&self) -> (r: Option<u128>)
        requires
            files_total(self.files@, Measure::ExecutableLines) <= u64::MAX,
            files_total(self.files@, Measure::CoveredLines) <= u64::MAX,
        ensures
            r == coverage_pct_of(
                files_total(self.files@, Measure::CoveredLines) as nat,
                files_total(self.files@, Measure::ExecutableLines) as nat,
            ),
    {
        coverage_pct(self.covered_lines(), self.executable_lines())
    }

    /// Branch coverage over all files in hundredths of a percent; `None`
    /// without branches.
    pub fn branch_pct(&self) -> (r: Option<u128>)
        requires
            files_total(self.files@, Measure::Branches) <= u64::MAX,
            files_total(self.files@, Measure::CoveredBranches) <= u64::MAX,
        ensures
            r == coverage_pct_of(
                files_total(self.files@, Measure::CoveredBranches) as nat,
                files_total(self.files@, Measure::Branches) as nat,
            ),
    {
        coverage_pct(self.covered_branches(), self.total_branches())
    }

    /// Function coverage over all files in hundredths of a percent; `None`
    /// without functions.
    pub fn function_pct(&self) -> (r: Option<u128>)
        requires
            files_total(self.files@, Measure::Functions) <= u64::MAX,
            files_total(self.files@, Measure::CoveredFunctions) <= u64::MAX,
        ensures
            r == coverage_pct_of(
                files_total(self.files@, Measure::CoveredFunctions) as nat,
                files_total(self.files@, Measure::Functions) as nat,
            ),
    {
        coverage_pct(self.covered_functions(), self.total_functions())
    }

    /// Files sorted by path without duplicates, as [`CoverageSnapshot::new`]
    /// leaves them.
    pub open spec fn well_formed(self) -> bool {
        paths_sorted(self.files@)
    }

    /// Builds a snapshot, enforcing invariants: files sorted by path with
    /// duplicate paths merged (records of every file at a path normalised
    /// together), each file normalised.
    pub fn new(
        repo: String,
        commit_sha: String,
        branch: Option<String>,
        pr_number: Option<u64>,
        generated_at: String,
        tool_versions: ToolVersions,
        files: Vec<FileCoverage>,
    ) -> (r: Self)
        ensures
            r.schema_version == SCHEMA_VERSION,
            r.repo == repo,
            r.commit_sha == commit_sha,
            r.branch == branch,
            r.pr_number == pr_number,
            r.generated_at == generated_at,
            r.tool_versions == tool_versions,
            files_merged(r.files@, files@),
            r.well_formed(),
            (forall|i: int| 0 <= i < r.files@.len() ==> (#[trigger] r.files@[i]).line_hits@.len()
                <= u32::MAX) ==> files_total(r.files@, Measure::ExecutableLines)
                == crate::normal::line_pairs(files@).len(),
    {
        let groups = group_files(&files);
        let normalised = normalise_groups(&groups);
        assert forall|i: int, j: int| 0 <= i < j < normalised@.len() implies seq_lt(
            normalised@[i].path@,
            normalised@[j].path@,
        ) by {
            assert(normalised@[i].path@ == groups@[i].path@);
            assert(normalised@[j].path@ == groups@[j].path@);
        }
        assert forall|i: int| 0 <= i < normalised@.len() implies has_path(
            files@,
            #[trigger] normalised@[i].path@,
        ) && normalised@[i].normalised_from(
            normalised@[i].path@,
            first_language(files@, normalised@[i].path@),
            path_lines(files@, normalised@[i].path@),
            path_branches(files@, normalised@[i].path@),
            path_functions(files@, normalised@[i].path@),
        ) by {
            assert(normalised@[i].path@ == groups@[i].path@);
            assert(has_path(files@, groups@[i].path@));
        }
        assert forall|j: int| 0 <= j < files@.len() implies has_path(
            normalised@,
            #[trigger] files@[j].path@,
        ) by {
            assert(has_path(groups@, files@[j].path@));
            let i = choose|i: int| 0 <= i < groups@.len() && groups@[i].path@ == files@[j].path@;
            assert(normalised@[i].path@ == groups@[i].path@);
        }
        proof {
            if forall|i: int| 0 <= i < normalised@.len() ==> (#[trigger] normalised@[i]).line_hits@.len()
                <= u32::MAX {
                crate::laws::law_snapshot_executable_lines(normalised@, files@);
            }
        }
        CoverageSnapshot {
            schema_version: SCHEMA_VERSION,
            repo,
            commit_sha,
            branch,
            pr_number,
            generated_at,
            tool_versions,
            files: normalised,
        }
    }

    /// Total executable lines across all files.
    pub fn executable_lines(&self) -> (r: u64)
        requires
            files_total(self.files@, Measure::ExecutableLines) <= u64::MAX,
        ensures
            r == files_total(self.files@, Measure::ExecutableLines),
    {
        sum_measure(&self.files, Measure::ExecutableLines)
    }

    /// Total covered lines across all files.
    pub fn covered_lines(&self) -> (r: u64)
        requires
            files_total(self.files@, Measure::CoveredLines) <= u64::MAX,
        ensures
            r == files_total(self.files@, Measure::CoveredLines),
    {
        sum_measure(&self.files, Measure::CoveredLines)
    }

    /// Total branches across all files.
    pub fn total_branches(&self) -> (r: u64)
        requires
            files_total(self.files@, Measure::Branches) <= u64::MAX,
        ensures
            r == files_total(self.files@, Measure::Branches),
    {
        sum_measure(&self.files, Measure::Branches)
    }

    /// Total covered branches across all files.
    pub fn covered_branches(&self) -> (r: u64)
        requires
            files_total(self.files@, Measure::CoveredBranches) <= u64::MAX,
        ensures
            r == files_total(self.files@, Measure::CoveredBranches),
    {
        sum_measure(&self.files, Measure::CoveredBranches)
    }

    /// Total instrumented functions across all files.
    pub fn total_functions(&self) -> (r: u64)
        requires
            files_total(self.files@, Measure::Functions) <= u64::MAX,
        ensures
            r == files_total(self.files@, Measure::Functions),
    {
        sum_measure(&self.files, Measure::Functions)
    }

    /// Total covered functions across all files.
    pub fn covered_functions(&self) -> (r: u64)
        requires
            files_total(self.files@, Measure::CoveredFunctions) <= u64::MAX,
        ensures
            r == files_total(self.files@, Measure::CoveredFunctions),
    {
        sum_measure(&self.files, Measure::CoveredFunctions)
    }
}



// ---------------------------------------------------------------------------
// The merge relations stated over records as read (views of the hits).
// ---------------------------------------------------------------------------

/// A branch record as read: line, block, branch, taken.
pub open spec fn branch_record(b: BranchHit) -> (u32, Seq<char>, Seq<char>, Option<u64>) {
    (b.line, b.block@, b.branch@, b.taken)
}

/// A function record as read: name, start line, hits.
pub open spec fn function_record(f: FunctionHit) -> (Seq<char>, u32, u64) {
    (f.name@, f.line, f.hits)
}

pub open spec fn branch_records(raw: Seq<BranchHit>) -> Seq<(u32, Seq<char>, Seq<char>, Option<u64>)> {
    raw.map_values(|b: BranchHit| branch_record(b))
}

pub open spec fn function_records(raw: Seq<FunctionHit>) -> Seq<(Seq<char>, u32, u64)> {
    raw.map_values(|f: FunctionHit| function_record(f))
}

pub open spec fn record_is(r: (u32, Seq<char>, Seq<char>, Option<u64>), k: BranchHit) -> bool {
    r.0 == k.line && r.1 == k.block@ && r.2 == k.branch@
}

pub open spec fn record_taken(s: Seq<(u32, Seq<char>, Seq<char>, Option<u64>)>, k: BranchHit) -> Option<u64>
    decreases s.len(),
{
    if s.len() == 0 {
        None
    } else if record_is(s.last(), k) {
        merge_taken_spec(record_taken(s.drop_last(), k), s.last().3)
    } else {
        record_taken(s.drop_last(), k)
    }
}

pub open spec fn has_record(recs: Seq<(u32, Seq<char>, Seq<char>, Option<u64>)>, k: BranchHit) -> bool {
    exists|j: int| 0 <= j < recs.len() && record_is(#[trigger] recs[j], k)
}

pub open spec fn holds_record(out: Seq<BranchHit>, r: (u32, Seq<char>, Seq<char>, Option<u64>)) -> bool {
    exists|i: int| 0 <= i < out.len() && record_is(r, #[trigger] out[i])
}

/// `out` is the branch records `recs` merged: one entry per key, in key
/// order, taken counts merged by the LCOV rule.
pub open spec fn branches_merged_rec(
    out: Seq<BranchHit>,
    recs: Seq<(u32, Seq<char>, Seq<char>, Option<u64>)>,
) -> bool {
    &&& branches_sorted(out)
    &&& forall|i: int|
        0 <= i < out.len() ==> has_record(recs, #[trigger] out[i]) && out[i].taken == record_taken(
            recs,
            out[i],
        )
    &&& forall|j: int| 0 <= j < recs.len() ==> holds_record(out, #[trigger] recs[j])
}

pub open spec fn function_hits_rec(s: Seq<(Seq<char>, u32, u64)>, name: Seq<char>) -> int
    decreases s.len(),
{
    if s.len() == 0 {
        0
    } else {
        function_hits_rec(s.drop_last(), name) + if s.last().0 == name {
            s.last().2 as int
        } else {
            0
        }
    }
}

pub open spec fn function_line_rec(s: Seq<(Seq<char>, u32, u64)>, name: Seq<char>) -> u32
    decreases s.len(),
{
    if s.len() == 0 {
        0
    } else {
        let acc = function_line_rec(s.drop_last(), name);
        let f = s.last();
        if f.0 == name && f.1 != 0 && (acc == 0 || f.1 < acc) {
            f.1
        } else {
            acc
        }
    }
}

pub open spec fn has_name_record(recs: Seq<(Seq<char>, u32, u64)>, name: Seq<char>) -> bool {
    exists|j: int| 0 <= j < recs.len() && (#[trigger] recs[j]).0 == name
}

/// `out` is the function records `recs` merged: one entry per name, in name
/// order, hits summed (saturating) and the smallest known start line kept.
pub open spec fn functions_merged_rec(out: Seq<FunctionHit>, recs: Seq<(Seq<char>, u32, u64)>) -> bool {
    &&& functions_sorted(out)
    &&& forall|i: int|
        0 <= i < out.len() ==> has_name_record(recs, #[trigger] out[i].name@) && out[i].hits
            == clamp(function_hits_rec(recs, out[i].name@)) && out[i].line == function_line_rec(
            recs,
            out[i].name@,
        )
    &&& forall|j: int| 0 <= j < recs.len() ==> has_function(out, (#[trigger] recs[j]).0)
}

proof fn lemma_record_taken(raw: Seq<BranchHit>, k: BranchHit)
    ensures
        record_taken(branch_records(raw), k) == taken_total(raw, k),
    decreases raw.len(),
{
    if raw.len() > 0 {
        assert(branch_records(raw.drop_last()) =~= branch_records(raw).drop_last());
        lemma_record_taken(raw.drop_last(), k);
    }
}

#[verifier::spinoff_prover]
pub proof fn lemma_branches_merged_rec(out: Seq<BranchHit>, raw: Seq<BranchHit>)
    requires
        branches_merged(out, raw),
    ensures
        branches_merged_rec(out, branch_records(raw)),
{
    let recs = branch_records(raw);
    assert(recs.len() == raw.len());
    assert forall|j: int| 0 <= j < recs.len() implies #[trigger] recs[j] == branch_record(raw[j]) by {}
    assert(branches_sorted(out));
    assert forall|i: int| 0 <= i < out.len() implies has_record(recs, #[trigger] out[i])
        && out[i].taken == record_taken(recs, out[i]) by {
        assert(has_branch(raw, out[i]));
        let j = choose|j: int| 0 <= j < raw.len() && same_branch(raw[j], out[i]);
        assert(record_is(recs[j], out[i]));
        lemma_record_taken(raw, out[i]);
    }
    assert forall|j: int| 0 <= j < recs.len() implies holds_record(out, #[trigger] recs[j]) by {
        assert(has_branch(out, raw[j]));
        let i = choose|i: int| 0 <= i < out.len() && same_branch(out[i], raw[j]);
        assert(record_is(recs[j], out[i]));
    }
}

proof fn lemma_function_rec(raw: Seq<FunctionHit>, name: Seq<char>)
    ensures
        function_hits_rec(function_records(raw), name)
            == function_hits(raw, name),
        function_line_rec(function_records(raw), name)
            == function_line(raw, name),
    decreases raw.len(),
{
    if raw.len() > 0 {
        assert(function_records(raw.drop_last()) =~= function_records(raw).drop_last());
        lemma_function_rec(raw.drop_last(), name);
    }
}

pub proof fn lemma_functions_merged_rec(out: Seq<FunctionHit>, raw: Seq<FunctionHit>)
    requires
        functions_merged(out, raw),
    ensures
        functions_merged_rec(out, function_records(raw)),
{
    let recs = function_records(raw);
    assert(recs.len() == raw.len());
    assert forall|j: int| 0 <= j < recs.len() implies #[trigger] recs[j] == function_record(raw[j]) by {}
    assert(functions_sorted(out));
    assert forall|i: int| 0 <= i < out.len() implies has_name_record(recs, #[trigger] out[i].name@)
        && out[i].hits == clamp(function_hits_rec(recs, out[i].name@)) && out[i].line
        == function_line_rec(recs, out[i].name@) by {
        assert(has_function(raw, out[i].name@));
        let j = choose|j: int| 0 <= j < raw.len() && raw[j].name@ == out[i].name@;
        assert(recs[j].0 == out[i].name@);
        lemma_function_rec(raw, out[i].name@);
    }
    assert forall|j: int| 0 <= j < recs.len() implies has_function(out, (#[trigger] recs[j]).0) by {
        assert(has_function(out, raw[j].name@));
        let i = choose|i: int| 0 <= i < out.len() && out[i].name@ == raw[j].name@;
        assert(out[i].name@ == recs[j].0);
    }
}

impl Language {
    /// Infers the language from a repo-relative file path by extension.
    pub fn from_path(path: &str) -> (r: Self)
        ensures
            r == language_of(path@),
    {
        let cs = chars_of(path);
        let parts = split_char(&cs, '/');
        let name: Vec<char> = match last_component_of(&parts) {
            Some(k) => {
                let p = &parts[k];
                if p.len() == 2 && p[0] == '.' && p[1] == '.' {
                    assert(p@ =~= seq!['.', '.']);
                    return Language::Unknown;
                }
                assert(p@ != seq!['.', '.']) by {
                    if p@ == seq!['.', '.'] {
                        assert(p@.len() == 2 && p@[0] == '.' && p@[1] == '.');
                    }
                }
                p.clone()
            },
            None => {
                return Language::Unknown;
            },
        };
        assert(file_name(path@) == Some(name@));
        match crate::text::rfind_char(&name, '.') {
            Some(i) => {
                proof {
                    crate::text::lemma_find_last_facts(name@, '.');
                }
                if i == 0 {
                    return Language::Unknown;
                }
                let ext = crate::text::slice_of(&name, i + 1, name.len());
                assert(ext@ =~= name@.skip(i + 1));
                proof {
                    reveal_strlit("rs");
                    reveal_strlit("py");
                    reveal_strlit("dart");
                    assert("rs"@ =~= seq!['r', 's']);
                    assert("py"@ =~= seq!['p', 'y']);
                    assert("dart"@ =~= seq!['d', 'a', 'r', 't']);
                }
                if eq_str(&ext, "rs") {
                    Language::Rust
                } else if eq_str(&ext, "py") {
                    Language::Python
                } else if eq_str(&ext, "dart") {
                    Language::Dart
                } else {
                    Language::Unknown
                }
            },
            None => Language::Unknown,
        }
    }
}

} // verus!
