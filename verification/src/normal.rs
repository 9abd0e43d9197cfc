//! Normal forms of coverage records: a normalised file is its own
//! normalisation, and what its counts measure of the records it came from.
use vstd::prelude::*;

use crate::model::{
    BranchHit, CoverageSnapshot, FileCoverage, FunctionHit, LineHit, Measure, branch_covered,
    branch_lt, branches_merged, branches_sorted, clamp, count_covered_branches, count_covered_lines,
    files_total, function_hits, function_line, functions_merged, functions_sorted, has_branch,
    has_function, has_line, has_path, line_total, lines_merged, lines_sorted, path_lines,
    paths_sorted, same_branch, taken_total,
};
use crate::compare::{
    ChangedLines, FileDelta, base_file_at, comparison_files, counts_total, delta_correct, head_side,
};
use crate::text::{seq_lt};

verus! {

/// Two sequences strictly ordered by a strict total order and holding the
/// same members are equal.
pub proof fn lemma_sorted_same_members<K>(a: Seq<K>, b: Seq<K>, lt: spec_fn(K, K) -> bool)
    requires
        forall|x: K| !(#[trigger] lt(x, x)),
        forall|x: K, y: K, z: K| #[trigger] lt(x, y) && #[trigger] lt(y, z) ==> lt(x, z),
        forall|x: K, y: K| #[trigger] lt(x, y) || x == y || lt(y, x),
        forall|i: int, j: int| 0 <= i < j < a.len() ==> lt(a[i], a[j]),
        forall|i: int, j: int| 0 <= i < j < b.len() ==> lt(b[i], b[j]),
        forall|v: K| a.contains(v) <==> b.contains(v),
    ensures
        a == b,
    decreases a.len(),
{
    if a.len() == 0 {
        if b.len() > 0 {
            assert(b.contains(b[0]));
        }
        assert(a =~= b);
    } else {
        assert(a.contains(a[0]));
        assert(b.len() > 0);
        assert(b.contains(b[0]));
        let j = choose|j: int| 0 <= j < b.len() && b[j] == a[0];
        let k = choose|k: int| 0 <= k < a.len() && a[k] == b[0];
        if j > 0 {
            assert(lt(b[0], b[j]));
            if k > 0 {
                assert(lt(a[0], a[k]));
                assert(lt(b[0], b[0]));
            } else {
                assert(lt(a[0], a[0]));
            }
        }
        assert(a[0] == b[0]);
        let a2 = a.drop_first();
        let b2 = b.drop_first();
        assert forall|v: K| a2.contains(v) <==> b2.contains(v) by {
            if a2.contains(v) {
                let i = choose|i: int| 0 <= i < a2.len() && a2[i] == v;
                assert(lt(a[0], a[i + 1]));
                assert(a.contains(v));
                let t = choose|t: int| 0 <= t < b.len() && b[t] == v;
                if t == 0 {
                    assert(lt(v, v));
                }
                assert(b2[t - 1] == v);
            }
            if b2.contains(v) {
                let i = choose|i: int| 0 <= i < b2.len() && b2[i] == v;
                assert(lt(b[0], b[i + 1]));
                assert(b.contains(v));
                let t = choose|t: int| 0 <= t < a.len() && a[t] == v;
                if t == 0 {
                    assert(lt(v, v));
                }
                assert(a2[t - 1] == v);
            }
        }
        assert forall|i: int, j: int| 0 <= i < j < a2.len() implies lt(a2[i], a2[j]) by {
            assert(lt(a[i + 1], a[j + 1]));
        }
        assert forall|i: int, j: int| 0 <= i < j < b2.len() implies lt(b2[i], b2[j]) by {
            assert(lt(b[i + 1], b[j + 1]));
        }
        lemma_sorted_same_members(a2, b2, lt);
        assert(a =~= b) by {
            assert forall|i: int| 0 <= i < a.len() implies a[i] == b[i] by {
                if i > 0 {
                    assert(a[i] == a2[i - 1]);
                    assert(b[i] == b2[i - 1]);
                }
            }
        }
    }
}

// ---------------------------------------------------------------------------
// Lines.
// ---------------------------------------------------------------------------

pub open spec fn line_keys(s: Seq<LineHit>) -> Seq<u32> {
    s.map_values(|h: LineHit| h.line)
}

pub open spec fn u32_lt(x: u32, y: u32) -> bool {
    x < y
}

/// Two merges of the same line records are the same.
pub proof fn lemma_lines_merge_unique(x: Seq<LineHit>, y: Seq<LineHit>, input: Seq<LineHit>)
    requires
        lines_merged(x, input),
        lines_merged(y, input),
    ensures
        x == y,
{
    let kx = line_keys(x);
    let ky = line_keys(y);
    assert forall|v: u32| kx.contains(v) <==> ky.contains(v) by {
        if kx.contains(v) {
            let i = choose|i: int| 0 <= i < kx.len() && kx[i] == v;
            assert(has_line(input, x[i].line));
            assert(has_line(y, v));
            let j = choose|j: int| 0 <= j < y.len() && y[j].line == v;
            assert(ky[j] == v);
        }
        if ky.contains(v) {
            let i = choose|i: int| 0 <= i < ky.len() && ky[i] == v;
            assert(has_line(input, y[i].line));
            assert(has_line(x, v));
            let j = choose|j: int| 0 <= j < x.len() && x[j].line == v;
            assert(kx[j] == v);
        }
    }
    lemma_sorted_same_members(kx, ky, |a: u32, b: u32| a < b);
    assert(x.len() == y.len()) by {
        assert(kx.len() == ky.len());
    }
    assert forall|i: int| 0 <= i < x.len() implies x[i] == y[i] by {
        assert(kx[i] == ky[i]);
    }
    assert(x =~= y);
}

pub(crate) proof fn lemma_line_total_one(s: Seq<LineHit>, i: int)
    requires
        lines_sorted(s),
        0 <= i < s.len(),
    ensures
        line_total(s, s[i].line) == s[i].hits,
    decreases s.len(),
{
    let t = s.drop_last();
    if i < s.len() - 1 {
        lemma_line_total_one(t, i);
    } else {
        lemma_line_absent(t, s[i].line);
    }
}

pub(crate) proof fn lemma_line_absent(s: Seq<LineHit>, line: u32)
    requires
        forall|k: int| 0 <= k < s.len() ==> s[k].line < line,
    ensures
        line_total(s, line) == 0,
    decreases s.len(),
{
    if s.len() > 0 {
        lemma_line_absent(s.drop_last(), line);
    }
}

/// Merged lines merge to themselves.
pub proof fn lemma_lines_self_merged(out: Seq<LineHit>, input: Seq<LineHit>)
    requires
        lines_merged(out, input),
    ensures
        lines_merged(out, out),
{
    assert forall|i: int| 0 <= i < out.len() implies has_line(out, #[trigger] out[i].line)
        && out[i].hits == clamp(line_total(out, out[i].line)) by {
        lemma_line_total_one(out, i);
    }
}

// ---------------------------------------------------------------------------
// Branches.
// ---------------------------------------------------------------------------

/// A branch record as plain values: its key and taken count.
pub open spec fn branch_view(b: BranchHit) -> (u32, Seq<char>, Seq<char>, Option<u64>) {
    (b.line, b.block@, b.branch@, b.taken)
}

pub open spec fn branch_views(s: Seq<BranchHit>) -> Seq<(u32, Seq<char>, Seq<char>, Option<u64>)> {
    s.map_values(|b: BranchHit| branch_view(b))
}

pub open spec fn branch_keys(s: Seq<BranchHit>) -> Seq<(u32, Seq<char>, Seq<char>)> {
    s.map_values(|b: BranchHit| (b.line, b.block@, b.branch@))
}

#[verifier::opaque]
pub open spec fn key3_lt(p: (u32, Seq<char>, Seq<char>), q: (u32, Seq<char>, Seq<char>)) -> bool {
    crate::model::key_lt(p.0, p.1, p.2, q.0, q.1, q.2)
}

pub(crate) proof fn lemma_key3_order()
    ensures
        forall|x: (u32, Seq<char>, Seq<char>)| !(#[trigger] key3_lt(x, x)),
        forall|x: (u32, Seq<char>, Seq<char>), y: (u32, Seq<char>, Seq<char>), z: (u32, Seq<char>, Seq<char>)|
            #[trigger] key3_lt(x, y) && #[trigger] key3_lt(y, z) ==> key3_lt(x, z),
        forall|x: (u32, Seq<char>, Seq<char>), y: (u32, Seq<char>, Seq<char>)|
            #[trigger] key3_lt(x, y) || x == y || key3_lt(y, x),
{
    reveal(key3_lt);
    assert forall|x: (u32, Seq<char>, Seq<char>)| !(#[trigger] key3_lt(x, x)) by {
        crate::text::lemma_seq_lt_irreflexive(x.1);
        crate::text::lemma_seq_lt_irreflexive(x.2);
    }
    assert forall|x: (u32, Seq<char>, Seq<char>), y: (u32, Seq<char>, Seq<char>), z: (u32, Seq<char>, Seq<char>)|
        #[trigger] key3_lt(x, y) && #[trigger] key3_lt(y, z) implies key3_lt(x, z) by {
        crate::text::lemma_seq_lt_trichotomy(x.1, y.1);
        crate::text::lemma_seq_lt_trichotomy(y.1, z.1);
        crate::text::lemma_seq_lt_trichotomy(x.2, y.2);
        crate::text::lemma_seq_lt_irreflexive(x.1);
        crate::text::lemma_seq_lt_irreflexive(x.2);
        if seq_lt(x.1, y.1) && seq_lt(y.1, z.1) {
            crate::text::lemma_seq_lt_transitive(x.1, y.1, z.1);
        }
        if seq_lt(x.2, y.2) && seq_lt(y.2, z.2) {
            crate::text::lemma_seq_lt_transitive(x.2, y.2, z.2);
        }
    }
    assert forall|x: (u32, Seq<char>, Seq<char>), y: (u32, Seq<char>, Seq<char>)|
        #[trigger] key3_lt(x, y) || x == y || key3_lt(y, x) by {
        crate::text::lemma_seq_lt_trichotomy(x.1, y.1);
        crate::text::lemma_seq_lt_trichotomy(x.2, y.2);
    }
}

pub(crate) proof fn lemma_taken_same_key(s: Seq<BranchHit>, a: BranchHit, b: BranchHit)
    requires
        same_branch(a, b),
    ensures
        taken_total(s, a) == taken_total(s, b),
    decreases s.len(),
{
    if s.len() > 0 {
        lemma_taken_same_key(s.drop_last(), a, b);
    }
}

pub(crate) proof fn lemma_branch_keys_members(x: Seq<BranchHit>, y: Seq<BranchHit>, input: Seq<BranchHit>)
    requires
        forall|i: int| 0 <= i < x.len() ==> has_branch(input, #[trigger] x[i]),
        forall|j: int| 0 <= j < input.len() ==> has_branch(y, #[trigger] input[j]),
    ensures
        forall|v: (u32, Seq<char>, Seq<char>)| branch_keys(x).contains(v) ==> branch_keys(y).contains(v),
{
    let kx = branch_keys(x);
    let ky = branch_keys(y);
    assert forall|v: (u32, Seq<char>, Seq<char>)| kx.contains(v) implies ky.contains(v) by {
        let i = choose|i: int| 0 <= i < kx.len() && kx[i] == v;
        assert(has_branch(input, x[i]));
        let k = choose|k: int| 0 <= k < input.len() && same_branch(input[k], x[i]);
        assert(has_branch(y, input[k]));
        let j = choose|j: int| 0 <= j < y.len() && same_branch(y[j], input[k]);
        assert(ky[j] == v);
    }
}

pub(crate) proof fn lemma_branch_keys_sorted(x: Seq<BranchHit>)
    requires
        branches_sorted(x),
    ensures
        forall|i: int, j: int| 0 <= i < j < branch_keys(x).len() ==> key3_lt(branch_keys(x)[i], branch_keys(x)[j]),
{
    reveal(key3_lt);
    assert forall|i: int, j: int| 0 <= i < j < branch_keys(x).len() implies key3_lt(
        branch_keys(x)[i],
        branch_keys(x)[j],
    ) by {
        assert(branch_lt(x[i], x[j]));
    }
}

pub(crate) proof fn lemma_branch_keys_equal(x: Seq<BranchHit>, y: Seq<BranchHit>, input: Seq<BranchHit>)
    requires
        branches_sorted(x),
        branches_sorted(y),
        forall|i: int| 0 <= i < x.len() ==> has_branch(input, #[trigger] x[i]),
        forall|i: int| 0 <= i < y.len() ==> has_branch(input, #[trigger] y[i]),
        forall|j: int| 0 <= j < input.len() ==> has_branch(y, #[trigger] input[j]),
        forall|j: int| 0 <= j < input.len() ==> has_branch(x, #[trigger] input[j]),
    ensures
        branch_keys(x) == branch_keys(y),
{
    lemma_branch_keys_members(x, y, input);
    lemma_branch_keys_members(y, x, input);
    lemma_branch_keys_sorted(x);
    lemma_branch_keys_sorted(y);
    lemma_key3_order();
    lemma_sorted_same_members(branch_keys(x), branch_keys(y), |p, q| key3_lt(p, q));
}

pub(crate) proof fn lemma_branch_views_from_keys(x: Seq<BranchHit>, y: Seq<BranchHit>, input: Seq<BranchHit>)
    requires
        branch_keys(x) == branch_keys(y),
        forall|i: int| 0 <= i < x.len() ==> (#[trigger] x[i]).taken == taken_total(input, x[i]),
        forall|i: int| 0 <= i < y.len() ==> (#[trigger] y[i]).taken == taken_total(input, y[i]),
    ensures
        branch_views(x) == branch_views(y),
{
    assert(branch_keys(x).len() == x.len());
    assert(branch_keys(y).len() == y.len());
    assert(branch_views(x).len() == x.len());
    assert(branch_views(y).len() == y.len());
    assert forall|i: int| 0 <= i < x.len() implies branch_views(x)[i] == branch_views(y)[i] by {
        assert(branch_keys(x)[i] == branch_keys(y)[i]);
        assert(branch_keys(x)[i] == (x[i].line, x[i].block@, x[i].branch@));
        assert(branch_keys(y)[i] == (y[i].line, y[i].block@, y[i].branch@));
        assert(same_branch(x[i], y[i]));
        lemma_taken_same_key(input, x[i], y[i]);
    }
    assert(branch_views(x) =~= branch_views(y));
}

/// Two merges of the same branch records hold the same keys and counts in
/// the same order.
pub proof fn lemma_branches_merge_unique(x: Seq<BranchHit>, y: Seq<BranchHit>, input: Seq<BranchHit>)
    requires
        branches_merged(x, input),
        branches_merged(y, input),
    ensures
        branch_views(x) == branch_views(y),
{
    lemma_branch_keys_equal(x, y, input);
    lemma_branch_views_from_keys(x, y, input);
}

pub(crate) proof fn lemma_taken_absent(s: Seq<BranchHit>, k: BranchHit)
    requires
        forall|j: int| 0 <= j < s.len() ==> branch_lt(s[j], k),
    ensures
        taken_total(s, k) is None,
    decreases s.len(),
{
    if s.len() > 0 {
        crate::text::lemma_seq_lt_irreflexive(k.block@);
        crate::text::lemma_seq_lt_irreflexive(k.branch@);
        lemma_taken_absent(s.drop_last(), k);
    }
}

pub(crate) proof fn lemma_taken_one(s: Seq<BranchHit>, i: int)
    requires
        branches_sorted(s),
        0 <= i < s.len(),
    ensures
        taken_total(s, s[i]) == s[i].taken,
    decreases s.len(),
{
    let t = s.drop_last();
    crate::text::lemma_seq_lt_irreflexive(s[i].block@);
    crate::text::lemma_seq_lt_irreflexive(s[i].branch@);
    if i < s.len() - 1 {
        lemma_taken_one(t, i);
        assert(branch_lt(s[i], s.last()));
    } else {
        lemma_taken_absent(t, s[i]);
    }
}

/// Merged branches merge to themselves.
pub proof fn lemma_branches_self_merged(out: Seq<BranchHit>, input: Seq<BranchHit>)
    requires
        branches_merged(out, input),
    ensures
        branches_merged(out, out),
{
    assert forall|i: int| 0 <= i < out.len() implies has_branch(out, #[trigger] out[i])
        && out[i].taken == taken_total(out, out[i]) by {
        lemma_taken_one(out, i);
        assert(same_branch(out[i], out[i]));
    }
    assert forall|j: int| 0 <= j < out.len() implies has_branch(out, #[trigger] out[j]) by {
        assert(same_branch(out[j], out[j]));
    }
}

// ---------------------------------------------------------------------------
// Functions.
// ---------------------------------------------------------------------------

/// A function record as plain values: its name, start line and hits.
pub open spec fn function_view(f: FunctionHit) -> (Seq<char>, u32, u64) {
    (f.name@, f.line, f.hits)
}

pub open spec fn function_views(s: Seq<FunctionHit>) -> Seq<(Seq<char>, u32, u64)> {
    s.map_values(|f: FunctionHit| function_view(f))
}

pub open spec fn function_names(s: Seq<FunctionHit>) -> Seq<Seq<char>> {
    s.map_values(|f: FunctionHit| f.name@)
}

pub open spec fn name_lt(p: Seq<char>, q: Seq<char>) -> bool {
    seq_lt(p, q)
}

/// Two merges of the same function records hold the same names, lines and
/// hits in the same order.
pub proof fn lemma_functions_merge_unique(x: Seq<FunctionHit>, y: Seq<FunctionHit>, input: Seq<FunctionHit>)
    requires
        functions_merged(x, input),
        functions_merged(y, input),
    ensures
        function_views(x) == function_views(y),
{
    let nx = function_names(x);
    let ny = function_names(y);
    assert forall|v: Seq<char>| nx.contains(v) <==> ny.contains(v) by {
        if nx.contains(v) {
            let i = choose|i: int| 0 <= i < nx.len() && nx[i] == v;
            assert(has_function(input, x[i].name@));
            let k = choose|k: int| 0 <= k < input.len() && input[k].name@ == x[i].name@;
            assert(has_function(y, input[k].name@));
            let j = choose|j: int| 0 <= j < y.len() && y[j].name@ == input[k].name@;
            assert(ny[j] == v);
        }
        if ny.contains(v) {
            let i = choose|i: int| 0 <= i < ny.len() && ny[i] == v;
            assert(has_function(input, y[i].name@));
            let k = choose|k: int| 0 <= k < input.len() && input[k].name@ == y[i].name@;
            assert(has_function(x, input[k].name@));
            let j = choose|j: int| 0 <= j < x.len() && x[j].name@ == input[k].name@;
            assert(nx[j] == v);
        }
    }
    assert forall|p: Seq<char>| !(#[trigger] name_lt(p, p)) by {
        crate::text::lemma_seq_lt_irreflexive(p);
    }
    assert forall|p: Seq<char>, q: Seq<char>, r: Seq<char>|
        #[trigger] name_lt(p, q) && #[trigger] name_lt(q, r) implies name_lt(p, r) by {
        crate::text::lemma_seq_lt_transitive(p, q, r);
    }
    assert forall|p: Seq<char>, q: Seq<char>| #[trigger] name_lt(p, q) || p == q || name_lt(q, p) by {
        crate::text::lemma_seq_lt_trichotomy(p, q);
    }
    assert forall|i: int, j: int| 0 <= i < j < nx.len() implies name_lt(nx[i], nx[j]) by {}
    assert forall|i: int, j: int| 0 <= i < j < ny.len() implies name_lt(ny[i], ny[j]) by {}
    lemma_sorted_same_members(nx, ny, |p, q| name_lt(p, q));
    assert(nx.len() == ny.len());
    assert forall|i: int| 0 <= i < x.len() implies function_views(x)[i] == function_views(y)[i] by {
        assert(nx[i] == ny[i]);
    }
    assert(function_views(x) =~= function_views(y));
}

pub(crate) proof fn lemma_function_absent_sorted(s: Seq<FunctionHit>, name: Seq<char>)
    requires
        forall|j: int| 0 <= j < s.len() ==> seq_lt(s[j].name@, name),
    ensures
        function_hits(s, name) == 0,
        function_line(s, name) == 0,
    decreases s.len(),
{
    if s.len() > 0 {
        crate::text::lemma_seq_lt_irreflexive(name);
        lemma_function_absent_sorted(s.drop_last(), name);
    }
}

pub(crate) proof fn lemma_function_one(s: Seq<FunctionHit>, i: int)
    requires
        functions_sorted(s),
        0 <= i < s.len(),
    ensures
        function_hits(s, s[i].name@) == s[i].hits,
        function_line(s, s[i].name@) == s[i].line,
    decreases s.len(),
{
    let t = s.drop_last();
    crate::text::lemma_seq_lt_irreflexive(s[i].name@);
    if i < s.len() - 1 {
        lemma_function_one(t, i);
        assert(seq_lt(s[i].name@, s.last().name@));
    } else {
        lemma_function_absent_sorted(t, s[i].name@);
    }
}

/// Merged functions merge to themselves.
pub proof fn lemma_functions_self_merged(out: Seq<FunctionHit>, input: Seq<FunctionHit>)
    requires
        functions_merged(out, input),
    ensures
        functions_merged(out, out),
{
    assert forall|i: int| 0 <= i < out.len() implies has_function(out, #[trigger] out[i].name@)
        && out[i].hits == clamp(function_hits(out, out[i].name@)) && out[i].line == function_line(
        out,
        out[i].name@,
    ) by {
        lemma_function_one(out, i);
    }
}

// ---------------------------------------------------------------------------
// What the line counts measure of the records a file was built from.
// ---------------------------------------------------------------------------

/// The lines of `input` that some record reports as executed.
pub open spec fn hit_lines(input: Seq<LineHit>) -> Set<u32> {
    Set::new(|l: u32| exists|i: int| 0 <= i < input.len() && input[i].line == l && input[i].hits > 0)
}

/// The lines of `input` that some record names.
pub open spec fn record_lines(input: Seq<LineHit>) -> Set<u32> {
    Set::new(|l: u32| has_line(input, l))
}

/// The lines of `s` with hits, in order.
pub open spec fn covered_keys(s: Seq<LineHit>) -> Seq<u32>
    decreases s.len(),
{
    if s.len() == 0 {
        seq![]
    } else if s.last().hits > 0 {
        covered_keys(s.drop_last()).push(s.last().line)
    } else {
        covered_keys(s.drop_last())
    }
}

pub(crate) proof fn lemma_covered_keys(s: Seq<LineHit>)
    requires
        lines_sorted(s),
    ensures
        covered_keys(s).len() == count_covered_lines(s),
        forall|i: int, j: int| 0 <= i < j < covered_keys(s).len() ==> covered_keys(s)[i] < covered_keys(s)[j],
        forall|l: u32| covered_keys(s).contains(l) <==> exists|i: int| 0 <= i < s.len() && s[i].line == l
            && s[i].hits > 0,
        forall|k: int| 0 <= k < covered_keys(s).len() ==> exists|i: int| 0 <= i < s.len() && s[i].line
            == #[trigger] covered_keys(s)[k],
    decreases s.len(),
{
    if s.len() > 0 {
        let t = s.drop_last();
        assert(lines_sorted(t));
        lemma_covered_keys(t);
        let c = covered_keys(t);
        assert forall|k: int| 0 <= k < c.len() implies c[k] < s.last().line by {
            let i = choose|i: int| 0 <= i < t.len() && t[i].line == c[k];
            assert(s[i] == t[i]);
        }
        assert forall|l: u32| covered_keys(s).contains(l) <==> exists|i: int| 0 <= i < s.len()
            && s[i].line == l && s[i].hits > 0 by {
            if covered_keys(s).contains(l) {
                let k = choose|k: int| 0 <= k < covered_keys(s).len() && covered_keys(s)[k] == l;
                if k < c.len() {
                    assert(c.contains(l));
                    let i = choose|i: int| 0 <= i < t.len() && t[i].line == l && t[i].hits > 0;
                    assert(s[i] == t[i]);
                } else {
                    assert(s[s.len() - 1].line == l);
                }
            }
            if exists|i: int| 0 <= i < s.len() && s[i].line == l && s[i].hits > 0 {
                let i = choose|i: int| 0 <= i < s.len() && s[i].line == l && s[i].hits > 0;
                if i < s.len() - 1 {
                    assert(t[i] == s[i]);
                    assert(c.contains(l));
                    let k = choose|k: int| 0 <= k < c.len() && c[k] == l;
                    assert(covered_keys(s)[k] == l);
                } else {
                    assert(covered_keys(s)[covered_keys(s).len() - 1] == l);
                }
            }
        }
        assert forall|k: int| 0 <= k < covered_keys(s).len() implies exists|i: int| 0 <= i < s.len()
            && s[i].line == #[trigger] covered_keys(s)[k] by {
            if k < c.len() {
                let i = choose|i: int| 0 <= i < t.len() && t[i].line == c[k];
                assert(s[i] == t[i]);
            } else {
                assert(s[s.len() - 1].line == covered_keys(s)[k]);
            }
        }
    }
}

pub(crate) proof fn lemma_line_total_positive(input: Seq<LineHit>, l: u32)
    ensures
        line_total(input, l) >= 0,
        line_total(input, l) > 0 <==> exists|i: int| 0 <= i < input.len() && input[i].line == l
            && input[i].hits > 0,
    decreases input.len(),
{
    if input.len() > 0 {
        let t = input.drop_last();
        lemma_line_total_positive(t, l);
        if exists|i: int| 0 <= i < t.len() && t[i].line == l && t[i].hits > 0 {
            let i = choose|i: int| 0 <= i < t.len() && t[i].line == l && t[i].hits > 0;
            assert(input[i] == t[i]);
        }
        if exists|i: int| 0 <= i < input.len() && input[i].line == l && input[i].hits > 0 {
            let i = choose|i: int| 0 <= i < input.len() && input[i].line == l && input[i].hits > 0;
            if i < input.len() - 1 {
                assert(t[i] == input[i]);
            }
        }
    }
}

// ---------------------------------------------------------------------------
// What the branch counts measure of the records a file was built from.
// ---------------------------------------------------------------------------

pub open spec fn branch_key(b: BranchHit) -> (u32, Seq<char>, Seq<char>) {
    (b.line, b.block@, b.branch@)
}

/// The branch keys of `input` that some record reports as taken.
pub open spec fn taken_keys(input: Seq<BranchHit>) -> Set<(u32, Seq<char>, Seq<char>)> {
    Set::new(|k: (u32, Seq<char>, Seq<char>)| exists|i: int| 0 <= i < input.len() && branch_key(input[i]) == k
        && branch_covered(input[i]))
}

/// The branch keys `input` names.
pub open spec fn record_keys(input: Seq<BranchHit>) -> Set<(u32, Seq<char>, Seq<char>)> {
    Set::new(|k: (u32, Seq<char>, Seq<char>)| exists|i: int| 0 <= i < input.len() && branch_key(input[i]) == k)
}

/// The keys of the covered branches of `s`, in order.
pub open spec fn covered_bkeys(s: Seq<BranchHit>) -> Seq<(u32, Seq<char>, Seq<char>)>
    decreases s.len(),
{
    if s.len() == 0 {
        seq![]
    } else if branch_covered(s.last()) {
        covered_bkeys(s.drop_last()).push(branch_key(s.last()))
    } else {
        covered_bkeys(s.drop_last())
    }
}

pub(crate) proof fn lemma_lt_keys_differ(a: BranchHit, b: BranchHit)
    requires
        branch_lt(a, b),
    ensures
        branch_key(a) != branch_key(b),
{
    crate::text::lemma_seq_lt_irreflexive(a.block@);
    crate::text::lemma_seq_lt_irreflexive(a.branch@);
}

pub(crate) proof fn lemma_covered_bkeys(s: Seq<BranchHit>)
    requires
        branches_sorted(s),
    ensures
        covered_bkeys(s).len() == count_covered_branches(s),
        covered_bkeys(s).no_duplicates(),
        forall|k: (u32, Seq<char>, Seq<char>)| covered_bkeys(s).contains(k) <==> exists|i: int| 0 <= i < s.len()
            && branch_key(s[i]) == k && branch_covered(s[i]),
    decreases s.len(),
{
    if s.len() > 0 {
        let t = s.drop_last();
        lemma_covered_bkeys(t);
        let c = covered_bkeys(t);
        assert forall|k: (u32, Seq<char>, Seq<char>)| covered_bkeys(s).contains(k) <==> exists|i: int|
            0 <= i < s.len() && branch_key(s[i]) == k && branch_covered(s[i]) by {
            if covered_bkeys(s).contains(k) {
                let m = choose|m: int| 0 <= m < covered_bkeys(s).len() && covered_bkeys(s)[m] == k;
                if m < c.len() {
                    assert(c.contains(k));
                    let i = choose|i: int| 0 <= i < t.len() && branch_key(t[i]) == k && branch_covered(t[i]);
                    assert(s[i] == t[i]);
                } else {
                    assert(branch_key(s[s.len() - 1]) == k);
                }
            }
            if exists|i: int| 0 <= i < s.len() && branch_key(s[i]) == k && branch_covered(s[i]) {
                let i = choose|i: int| 0 <= i < s.len() && branch_key(s[i]) == k && branch_covered(s[i]);
                if i < s.len() - 1 {
                    assert(t[i] == s[i]);
                    assert(c.contains(k));
                    let m = choose|m: int| 0 <= m < c.len() && c[m] == k;
                    assert(covered_bkeys(s)[m] == k);
                } else {
                    assert(covered_bkeys(s)[covered_bkeys(s).len() - 1] == k);
                }
            }
        }
        if branch_covered(s.last()) {
            assert(!c.contains(branch_key(s.last()))) by {
                if c.contains(branch_key(s.last())) {
                    let i = choose|i: int| 0 <= i < t.len() && branch_key(t[i]) == branch_key(s.last())
                        && branch_covered(t[i]);
                    assert(branch_lt(s[i], s[s.len() - 1]));
                    lemma_lt_keys_differ(s[i], s[s.len() - 1]);
                }
            }
            let cs = covered_bkeys(s);
            assert forall|a: int, b: int| 0 <= a < cs.len() && 0 <= b < cs.len() && a != b implies cs[a]
                != cs[b] by {
                if a == cs.len() - 1 {
                    assert(c.contains(cs[b]));
                } else if b == cs.len() - 1 {
                    assert(c.contains(cs[a]));
                } else {
                    assert(cs[a] == c[a] && cs[b] == c[b]);
                }
            }
        }
    }
}

pub(crate) proof fn lemma_taken_covered(input: Seq<BranchHit>, k: BranchHit)
    ensures
        (taken_total(input, k) matches Some(t) && t > 0) <==> exists|i: int| 0 <= i < input.len()
            && same_branch(input[i], k) && branch_covered(input[i]),
    decreases input.len(),
{
    if input.len() > 0 {
        let t = input.drop_last();
        lemma_taken_covered(t, k);
        if exists|i: int| 0 <= i < t.len() && same_branch(t[i], k) && branch_covered(t[i]) {
            let i = choose|i: int| 0 <= i < t.len() && same_branch(t[i], k) && branch_covered(t[i]);
            assert(input[i] == t[i]);
        }
        if exists|i: int| 0 <= i < input.len() && same_branch(input[i], k) && branch_covered(input[i]) {
            let i = choose|i: int| 0 <= i < input.len() && same_branch(input[i], k) && branch_covered(
                input[i],
            );
            if i < input.len() - 1 {
                assert(t[i] == input[i]);
            }
        }
    }
}

// ---------------------------------------------------------------------------
// A comparison is determined by what it compares.
// ---------------------------------------------------------------------------

/// Two file deltas say the same: path, counts, diff coverage and branch
/// diff coverage.
pub open spec fn same_delta(a: FileDelta, b: FileDelta) -> bool {
    &&& a.path@ == b.path@
    &&& a.base == b.base
    &&& a.head == b.head
    &&& a.base_branches == b.base_branches
    &&& a.head_branches == b.head_branches
    &&& a.diff.relevant == b.diff.relevant
    &&& a.diff.covered == b.diff.covered
    &&& a.diff.uncovered_lines@ == b.diff.uncovered_lines@
    &&& a.branch_diff.relevant == b.branch_diff.relevant
    &&& a.branch_diff.covered == b.branch_diff.covered
    &&& a.branch_diff.partial_lines@ == b.branch_diff.partial_lines@
}

pub open spec fn delta_paths(s: Seq<FileDelta>) -> Seq<Seq<char>> {
    s.map_values(|d: FileDelta| d.path@)
}

pub(crate) proof fn lemma_delta_paths_members(
    f1: Seq<FileDelta>,
    f2: Seq<FileDelta>,
    base: Option<CoverageSnapshot>,
    head: CoverageSnapshot,
    ch: ChangedLines,
)
    requires
        comparison_files(f1, base, head, ch),
        comparison_files(f2, base, head, ch),
    ensures
        forall|p: Seq<char>| delta_paths(f1).contains(p) ==> delta_paths(f2).contains(p),
{
    assert forall|p: Seq<char>| delta_paths(f1).contains(p) implies delta_paths(f2).contains(p) by {
        let k = choose|k: int| 0 <= k < delta_paths(f1).len() && delta_paths(f1)[k] == p;
        assert(delta_correct(f1[k], base, head, ch));
        if has_path(head.files@, p) {
        } else {
            assert(base_file_at(base, p) is Some);
        }
        let j = choose|j: int| 0 <= j < f2.len() && #[trigger] f2[j].path@ == p;
        assert(delta_paths(f2)[j] == p);
    }
}

pub(crate) proof fn lemma_partial_lines_unique(a: Seq<u32>, b: Seq<u32>)
    requires
        crate::compare::lines_ascending(a),
        crate::compare::lines_ascending(b),
        forall|l: u32| a.contains(l) <==> b.contains(l),
    ensures
        a == b,
{
    lemma_sorted_same_members(a, b, |x: u32, y: u32| x < y);
}

// ---------------------------------------------------------------------------
// A comparison's head totals are the head snapshot's totals.
// ---------------------------------------------------------------------------

/// The deltas of files present in head, in order.
pub open spec fn head_deltas(s: Seq<FileDelta>) -> Seq<FileDelta>
    decreases s.len(),
{
    if s.len() == 0 {
        seq![]
    } else if s.last().head is Some {
        head_deltas(s.drop_last()).push(s.last())
    } else {
        head_deltas(s.drop_last())
    }
}

pub(crate) proof fn lemma_head_deltas_sum(s: Seq<FileDelta>)
    ensures
        counts_total(head_side(s)) == counts_total(head_side(head_deltas(s))),
    decreases s.len(),
{
    if s.len() > 0 {
        let t = s.drop_last();
        lemma_head_deltas_sum(t);
        assert(head_side(s).drop_last() =~= head_side(t));
        if s.last().head is Some {
            assert(head_side(head_deltas(s)).drop_last() =~= head_side(head_deltas(t)));
        }
    }
}

pub(crate) proof fn lemma_head_deltas_from(s: Seq<FileDelta>)
    requires
        crate::compare::deltas_sorted(s),
    ensures
        forall|k: int| 0 <= k < head_deltas(s).len() ==> s.contains(#[trigger] head_deltas(s)[k])
            && head_deltas(s)[k].head is Some,
        forall|i: int| 0 <= i < s.len() && (#[trigger] s[i]).head is Some ==> head_deltas(s).contains(s[i]),
        forall|a: int, b: int| 0 <= a < b < head_deltas(s).len() ==> seq_lt(head_deltas(s)[a].path@, head_deltas(s)[b].path@),
    decreases s.len(),
{
    if s.len() > 0 {
        let t = s.drop_last();
        lemma_head_deltas_from(t);
        let h = head_deltas(t);
        assert(head_deltas(s) == if s.last().head is Some {
            h.push(s.last())
        } else {
            h
        });
        assert forall|k: int| 0 <= k < head_deltas(s).len() implies s.contains(#[trigger] head_deltas(s)[k])
            && head_deltas(s)[k].head is Some by {
            if k < h.len() {
                assert(t.contains(h[k]));
                let i = choose|i: int| 0 <= i < t.len() && t[i] == h[k];
                assert(s[i] == t[i]);
            } else {
                assert(s.last().head is Some);
                assert(head_deltas(s)[k] == s.last());
                assert(s[s.len() - 1] == head_deltas(s)[k]);
            }
        }
        assert forall|i: int| 0 <= i < s.len() && (#[trigger] s[i]).head is Some implies head_deltas(s).contains(s[i]) by {
            if i < s.len() - 1 {
                assert(t[i] == s[i]);
                assert(h.contains(s[i]));
                let k = choose|k: int| 0 <= k < h.len() && h[k] == s[i];
                assert(head_deltas(s)[k] == s[i]);
            } else {
                assert(head_deltas(s)[head_deltas(s).len() - 1] == s[i]);
            }
        }
        if s.last().head is Some {
            assert forall|k: int| 0 <= k < h.len() implies seq_lt(h[k].path@, s.last().path@) by {
                assert(t.contains(h[k]));
                let i = choose|i: int| 0 <= i < t.len() && t[i] == h[k];
                assert(s[i] == t[i]);
            }
        }
    } else {
        assert(head_deltas(s).len() == 0);
    }
}

pub(crate) proof fn lemma_total_remove(x: Seq<FileDelta>, k: int)
    requires
        0 <= k < x.len(),
    ensures
        counts_total(head_side(x)).0 == counts_total(head_side(x.remove(k))).0 + match x[k].head {
            Some(c) => c.covered as int,
            None => 0,
        },
        counts_total(head_side(x)).1 == counts_total(head_side(x.remove(k))).1 + match x[k].head {
            Some(c) => c.executable as int,
            None => 0,
        },
    decreases x.len(),
{
    if k == x.len() - 1 {
        assert(x.remove(k) =~= x.drop_last());
        assert(head_side(x).drop_last() =~= head_side(x.drop_last()));
    } else {
        let t = x.drop_last();
        lemma_total_remove(t, k);
        assert(x.remove(k).drop_last() =~= t.remove(k));
        assert(head_side(x).drop_last() =~= head_side(t));
        assert(head_side(x.remove(k)).drop_last() =~= head_side(t.remove(k)));
        assert(x.remove(k).last() == x.last());
    }
}

/// Head deltas matched one to one, by path, with the files whose counts
/// they hold sum to those files' totals, whatever the order of either.
pub(crate) proof fn lemma_sum_matched(x: Seq<FileDelta>, files: Seq<FileCoverage>)
    requires
        x.len() == files.len(),
        forall|a: int, b: int| 0 <= a < b < x.len() ==> x[a].path@ != x[b].path@,
        crate::compare::distinct_paths(files),
        forall|c: int|
            0 <= c < files.len() ==> exists|n: int|
                0 <= n < x.len() && x[n].path@ == (#[trigger] files[c]).path@ && x[n].head == Some(
                    crate::compare::counts_of(files[c]),
                ),
    ensures
        counts_total(head_side(x)).0 == files_total(files, Measure::CoveredLines),
        counts_total(head_side(x)).1 == files_total(files, Measure::ExecutableLines),
    decreases files.len(),
{
    if files.len() > 0 {
        let m = files.len() - 1;
        let f = files[m];
        let n = choose|n: int|
            0 <= n < x.len() && x[n].path@ == f.path@ && x[n].head == Some(
                crate::compare::counts_of(f),
            );
        let x2 = x.remove(n);
        let f2 = files.drop_last();
        assert forall|a: int, b: int| 0 <= a < b < x2.len() implies x2[a].path@ != x2[b].path@ by {
            let a1 = if a < n { a } else { a + 1 };
            let b1 = if b < n { b } else { b + 1 };
            assert(x2[a] == x[a1] && x2[b] == x[b1]);
        }
        assert forall|c: int| 0 <= c < f2.len() implies exists|q: int|
            0 <= q < x2.len() && x2[q].path@ == (#[trigger] f2[c]).path@ && x2[q].head == Some(
                crate::compare::counts_of(f2[c]),
            ) by {
            assert(f2[c] == files[c]);
            let q = choose|q: int|
                0 <= q < x.len() && x[q].path@ == files[c].path@ && x[q].head == Some(
                    crate::compare::counts_of(files[c]),
                );
            assert(files[c].path@ != files[m].path@);
            if q < n {
                assert(x2[q] == x[q]);
            } else {
                assert(q != n);
                assert(x2[q - 1] == x[q]);
            }
        }
        lemma_sum_matched(x2, f2);
        lemma_total_remove(x, n);
        assert(files.drop_last() == f2);
        assert(files.last() == f);
    }
}

// ---------------------------------------------------------------------------
// What a snapshot's executable-line total measures of the files given.
// ---------------------------------------------------------------------------

/// The (path, line) pairs that some record of `input` names.
pub open spec fn line_pairs(input: Seq<FileCoverage>) -> Set<(Seq<char>, u32)> {
    Set::new(
        |pl: (Seq<char>, u32)|
            exists|j: int, k: int|
                0 <= j < input.len() && 0 <= k < input[j].line_hits@.len() && input[j].path@
                    == pl.0 && (#[trigger] input[j].line_hits@[k]).line == pl.1,
    )
}

/// The (path, line) pairs of `files`, file after file.
pub(crate) open spec fn pair_seq(files: Seq<FileCoverage>) -> Seq<(Seq<char>, u32)>
    decreases files.len(),
{
    if files.len() == 0 {
        seq![]
    } else {
        let f = files.last();
        pair_seq(files.drop_last()) + f.line_hits@.map_values(|lh: LineHit| (f.path@, lh.line))
    }
}

pub(crate) proof fn lemma_pair_seq(files: Seq<FileCoverage>)
    requires
        forall|i: int| 0 <= i < files.len() ==> (#[trigger] files[i]).line_hits@.len() <= u32::MAX,
    ensures
        pair_seq(files).len() == files_total(files, Measure::ExecutableLines),
        forall|pl: (Seq<char>, u32)|
            #[trigger] pair_seq(files).contains(pl) <==> exists|i: int, k: int|
                0 <= i < files.len() && 0 <= k < files[i].line_hits@.len() && files[i].path@
                    == pl.0 && (#[trigger] files[i].line_hits@[k]).line == pl.1,
    decreases files.len(),
{
    if files.len() > 0 {
        let init = files.drop_last();
        assert forall|i: int| 0 <= i < init.len() implies (#[trigger] init[i]).line_hits@.len()
            <= u32::MAX by {
            assert(init[i] == files[i]);
        }
        lemma_pair_seq(init);
        let f = files.last();
        let n = files.len() - 1;
        assert(f == files[n]);
        let a = pair_seq(init);
        let b = f.line_hits@.map_values(|lh: LineHit| (f.path@, lh.line));
        assert(pair_seq(files) == a + b);
        assert forall|pl: (Seq<char>, u32)| #[trigger] pair_seq(files).contains(pl) <==> exists|
            i: int,
            k: int,
        |
            0 <= i < files.len() && 0 <= k < files[i].line_hits@.len() && files[i].path@ == pl.0
                && (#[trigger] files[i].line_hits@[k]).line == pl.1 by {
            if pair_seq(files).contains(pl) {
                let x = choose|x: int| 0 <= x < (a + b).len() && (a + b)[x] == pl;
                if x < a.len() {
                    assert(a.contains(pl));
                    let (i, k) = choose|i: int, k: int|
                        0 <= i < init.len() && 0 <= k < init[i].line_hits@.len() && init[i].path@
                            == pl.0 && (#[trigger] init[i].line_hits@[k]).line == pl.1;
                    assert(init[i] == files[i]);
                    assert(files[i].line_hits@[k].line == pl.1);
                } else {
                    let k = x - a.len();
                    assert(b[k] == pl);
                    assert(files[n].line_hits@[k].line == pl.1);
                }
            }
            if exists|i: int, k: int|
                0 <= i < files.len() && 0 <= k < files[i].line_hits@.len() && files[i].path@
                    == pl.0 && (#[trigger] files[i].line_hits@[k]).line == pl.1 {
                let (i, k) = choose|i: int, k: int|
                    0 <= i < files.len() && 0 <= k < files[i].line_hits@.len() && files[i].path@
                        == pl.0 && (#[trigger] files[i].line_hits@[k]).line == pl.1;
                if i < n {
                    assert(init[i] == files[i]);
                    assert(init[i].line_hits@[k].line == pl.1);
                    assert(a.contains(pl));
                    let x = choose|x: int| 0 <= x < a.len() && a[x] == pl;
                    assert((a + b)[x] == pl);
                } else {
                    assert(b[k] == pl);
                    assert((a + b)[a.len() + k] == pl);
                }
            }
        }
        assert(f.executable_count() == f.line_hits@.len());
    }
}

pub(crate) proof fn lemma_pair_seq_distinct(files: Seq<FileCoverage>)
    requires
        paths_sorted(files),
        forall|i: int| 0 <= i < files.len() ==> lines_sorted((#[trigger] files[i]).line_hits@),
        forall|i: int| 0 <= i < files.len() ==> (#[trigger] files[i]).line_hits@.len() <= u32::MAX,
    ensures
        pair_seq(files).no_duplicates(),
    decreases files.len(),
{
    if files.len() > 0 {
        let init = files.drop_last();
        assert forall|i: int| 0 <= i < init.len() implies lines_sorted((#[trigger] init[i]).line_hits@)
            && init[i].line_hits@.len() <= u32::MAX by {
            assert(init[i] == files[i]);
        }
        lemma_pair_seq_distinct(init);
        lemma_pair_seq(init);
        let f = files.last();
        let n = files.len() - 1;
        assert(f == files[n]);
        let a = pair_seq(init);
        let b = f.line_hits@.map_values(|lh: LineHit| (f.path@, lh.line));
        let s = a + b;
        assert(pair_seq(files) == s);
        assert forall|x: int, y: int| 0 <= x < s.len() && 0 <= y < s.len() && x != y implies s[x]
            != s[y] by {
            if x >= a.len() && y >= a.len() {
                let kx = x - a.len();
                let ky = y - a.len();
                if kx < ky {
                    assert(f.line_hits@[kx].line < f.line_hits@[ky].line);
                } else {
                    assert(f.line_hits@[ky].line < f.line_hits@[kx].line);
                }
            } else if x < a.len() && y >= a.len() {
                assert(a.contains(s[x]));
                let (i, k) = choose|i: int, k: int|
                    0 <= i < init.len() && 0 <= k < init[i].line_hits@.len() && init[i].path@
                        == s[x].0 && (#[trigger] init[i].line_hits@[k]).line == s[x].1;
                assert(init[i] == files[i]);
                assert(seq_lt(files[i].path@, files[n].path@));
                crate::text::lemma_seq_lt_irreflexive(files[n].path@);
            } else if y < a.len() && x >= a.len() {
                assert(a.contains(s[y]));
                let (i, k) = choose|i: int, k: int|
                    0 <= i < init.len() && 0 <= k < init[i].line_hits@.len() && init[i].path@
                        == s[y].0 && (#[trigger] init[i].line_hits@[k]).line == s[y].1;
                assert(init[i] == files[i]);
                assert(seq_lt(files[i].path@, files[n].path@));
                crate::text::lemma_seq_lt_irreflexive(files[n].path@);
            } else {
                assert(s[x] == a[x]);
                assert(s[y] == a[y]);
            }
        }
    }
}

pub(crate) proof fn lemma_path_lines_has(files: Seq<FileCoverage>, p: Seq<char>, l: u32)
    ensures
        has_line(path_lines(files, p), l) <==> exists|j: int, k: int|
            0 <= j < files.len() && 0 <= k < files[j].line_hits@.len() && files[j].path@ == p
                && (#[trigger] files[j].line_hits@[k]).line == l,
    decreases files.len(),
{
    if files.len() > 0 {
        let init = files.drop_last();
        lemma_path_lines_has(init, p, l);
        let n = files.len() - 1;
        let f = files[n];
        assert(f == files.last());
        if f.path@ == p {
            let a = path_lines(init, p);
            let c = a + f.line_hits@;
            assert(path_lines(files, p) == c);
            if has_line(c, l) {
                let x = choose|x: int| 0 <= x < c.len() && c[x].line == l;
                if x < a.len() {
                    assert(has_line(a, l));
                    let (j, k) = choose|j: int, k: int|
                        0 <= j < init.len() && 0 <= k < init[j].line_hits@.len() && init[j].path@
                            == p && (#[trigger] init[j].line_hits@[k]).line == l;
                    assert(init[j] == files[j]);
                    assert(files[j].line_hits@[k].line == l);
                } else {
                    assert(files[n].line_hits@[x - a.len()].line == l);
                }
            }
            if exists|j: int, k: int|
                0 <= j < files.len() && 0 <= k < files[j].line_hits@.len() && files[j].path@ == p
                    && (#[trigger] files[j].line_hits@[k]).line == l {
                let (j, k) = choose|j: int, k: int|
                    0 <= j < files.len() && 0 <= k < files[j].line_hits@.len() && files[j].path@
                        == p && (#[trigger] files[j].line_hits@[k]).line == l;
                if j < n {
                    assert(init[j] == files[j]);
                    assert(init[j].line_hits@[k].line == l);
                    let x = choose|x: int| 0 <= x < a.len() && a[x].line == l;
                    assert(c[x].line == l);
                } else {
                    assert(c[a.len() + k].line == l);
                }
            }
        } else {
            assert(path_lines(files, p) == path_lines(init, p));
            if exists|j: int, k: int|
                0 <= j < files.len() && 0 <= k < files[j].line_hits@.len() && files[j].path@ == p
                    && (#[trigger] files[j].line_hits@[k]).line == l {
                let (j, k) = choose|j: int, k: int|
                    0 <= j < files.len() && 0 <= k < files[j].line_hits@.len() && files[j].path@
                        == p && (#[trigger] files[j].line_hits@[k]).line == l;
                assert(j < n);
                assert(init[j] == files[j]);
                assert(init[j].line_hits@[k].line == l);
            }
            if has_line(path_lines(init, p), l) {
                let (j, k) = choose|j: int, k: int|
                    0 <= j < init.len() && 0 <= k < init[j].line_hits@.len() && init[j].path@
                        == p && (#[trigger] init[j].line_hits@[k]).line == l;
                assert(init[j] == files[j]);
                assert(files[j].line_hits@[k].line == l);
            }
        }
    }
}

} // verus!
