//! The plain-text coverage summaries printed on a terminal: the changed lines
//! left uncovered, grouped per file into runs of consecutive lines.
use vstd::prelude::*;

use vstd::string::StringExecFns;

use crate::compare::{
    Comparison, ComparisonAnalysis, CoverageScopeChangeKind, CoverageScopeEntry, FileDelta,
    affected_split, counts_total, base_side, diff_total, head_side,
};
use crate::pct::{delta_scaled, fixed2, pct_text, round_half_even};
use crate::report_github::{ranges_of, totals_fit, uncovered_files};
use crate::text::{chars_of, dec, hex_lower, is_control, join, push_dec, push_str, seq_lt};

verus! {

// ---------------------------------------------------------------------------
// The distinct line numbers of a list, ascending.
// ---------------------------------------------------------------------------

/// The elements of `s` below `x`, in order.
pub open spec fn keep_below(s: Seq<u32>, x: u32) -> Seq<u32>
    decreases s.len(),
{
    if s.len() == 0 {
        seq![]
    } else if s.last() < x {
        keep_below(s.drop_last(), x).push(s.last())
    } else {
        keep_below(s.drop_last(), x)
    }
}

/// The elements of `s` above `x`, in order.
pub open spec fn keep_above(s: Seq<u32>, x: u32) -> Seq<u32>
    decreases s.len(),
{
    if s.len() == 0 {
        seq![]
    } else if s.last() > x {
        keep_above(s.drop_last(), x).push(s.last())
    } else {
        keep_above(s.drop_last(), x)
    }
}

/// `x` added to an ascending list of distinct numbers, unless it is there.
pub open spec fn insert_unique(s: Seq<u32>, x: u32) -> Seq<u32> {
    keep_below(s, x).push(x) + keep_above(s, x)
}

/// The distinct elements of `s`, ascending (a sort followed by a dedup).
pub open spec fn sorted_unique(s: Seq<u32>) -> Seq<u32>
    decreases s.len(),
{
    if s.len() == 0 {
        seq![]
    } else {
        insert_unique(sorted_unique(s.drop_last()), s.last())
    }
}

pub open spec fn strictly_ascending(s: Seq<u32>) -> bool {
    forall|i: int, j: int| 0 <= i < j < s.len() ==> s[i] < s[j]
}

proof fn lemma_keep_below(s: Seq<u32>, x: u32)
    requires
        strictly_ascending(s),
    ensures
        strictly_ascending(keep_below(s, x)),
        forall|y: u32| #[trigger] keep_below(s, x).contains(y) <==> (s.contains(y) && y < x),
    decreases s.len(),
{
    broadcast use {vstd::seq_lib::lemma_seq_contains_after_push, vstd::seq_lib::lemma_seq_contains};

    if s.len() > 0 {
        let t = s.drop_last();
        assert(s =~= t.push(s.last()));
        lemma_keep_below(t, x);
        let kb = keep_below(t, x);
        assert forall|y: u32| keep_below(s, x).contains(y) <==> (s.contains(y) && y < x) by {
            assert(s.contains(y) <==> (t.contains(y) || y == s.last()));
        }
        if s.last() < x {
            assert forall|i: int, j: int| 0 <= i < j < kb.push(s.last()).len() implies kb.push(
                s.last(),
            )[i] < kb.push(s.last())[j] by {
                if j == kb.len() {
                    assert(kb[i] == kb.push(s.last())[i]);
                    assert(kb.contains(kb[i]));
                    assert(t.contains(kb[i]));
                    let k = choose|k: int| 0 <= k < t.len() && t[k] == kb[i];
                    assert(s[k] < s[s.len() - 1]);
                }
            }
        }
    }
}

proof fn lemma_keep_above(s: Seq<u32>, x: u32)
    requires
        strictly_ascending(s),
    ensures
        strictly_ascending(keep_above(s, x)),
        forall|y: u32| #[trigger] keep_above(s, x).contains(y) <==> (s.contains(y) && y > x),
    decreases s.len(),
{
    broadcast use {vstd::seq_lib::lemma_seq_contains_after_push, vstd::seq_lib::lemma_seq_contains};

    if s.len() > 0 {
        let t = s.drop_last();
        assert(s =~= t.push(s.last()));
        lemma_keep_above(t, x);
        let ka = keep_above(t, x);
        assert forall|y: u32| keep_above(s, x).contains(y) <==> (s.contains(y) && y > x) by {
            assert(s.contains(y) <==> (t.contains(y) || y == s.last()));
        }
        if s.last() > x {
            assert forall|i: int, j: int| 0 <= i < j < ka.push(s.last()).len() implies ka.push(
                s.last(),
            )[i] < ka.push(s.last())[j] by {
                if j == ka.len() {
                    assert(ka[i] == ka.push(s.last())[i]);
                    assert(ka.contains(ka[i]));
                    assert(t.contains(ka[i]));
                    let k = choose|k: int| 0 <= k < t.len() && t[k] == ka[i];
                    assert(s[k] < s[s.len() - 1]);
                }
            }
        }
    }
}

/// The distinct elements of a list, ascending, are exactly its elements, each
/// once and in increasing order.
pub proof fn lemma_sorted_unique(s: Seq<u32>)
    ensures
        strictly_ascending(sorted_unique(s)),
        forall|y: u32| sorted_unique(s).contains(y) <==> s.contains(y),
    decreases s.len(),
{
    broadcast use {
        vstd::seq_lib::lemma_seq_contains_after_push,
        vstd::seq_lib::lemma_seq_concat_contains_all_elements,
        vstd::seq_lib::lemma_seq_contains,
    };

    if s.len() > 0 {
        let t = s.drop_last();
        let x = s.last();
        assert(s =~= t.push(x));
        let u = sorted_unique(t);
        lemma_sorted_unique(t);
        lemma_keep_below(u, x);
        lemma_keep_above(u, x);
        let kb = keep_below(u, x);
        let lo = kb.push(x);
        let hi = keep_above(u, x);
        let r = lo + hi;
        assert(r == sorted_unique(s));
        assert forall|i: int, j: int| 0 <= i < j < r.len() implies r[i] < r[j] by {
            if i < kb.len() {
                assert(r[i] == kb[i]);
                assert(kb.contains(kb[i]));
            } else if i == kb.len() {
                assert(r[i] == x);
            } else {
                assert(r[i] == hi[i - lo.len()]);
            }
            if j < kb.len() {
                assert(r[j] == kb[j]);
                assert(kb[i] < kb[j]);
            } else if j == kb.len() {
                assert(r[j] == x);
                assert(r[i] < x);
            } else {
                assert(r[j] == hi[j - lo.len()]);
                assert(hi.contains(hi[j - lo.len()]));
                assert(hi[j - lo.len()] > x);
                if i > kb.len() {
                    assert(hi[i - lo.len()] < hi[j - lo.len()]);
                }
            }
        }
    }
}

fn insert_unique_exec(s: &Vec<u32>, x: u32) -> (r: Vec<u32>)
    ensures
        r@ == insert_unique(s@, x),
{
    let mut r: Vec<u32> = Vec::new();
    let mut i: usize = 0;
    while i < s.len()
        invariant
            i <= s@.len(),
            r@ == keep_below(s@.take(i as int), x),
        decreases s@.len() - i,
    {
        assert(s@.take(i + 1).drop_last() =~= s@.take(i as int));
        if s[i] < x {
            r.push(s[i]);
        }
        i += 1;
    }
    assert(s@.take(i as int) =~= s@);
    r.push(x);
    let ghost lo = r@;
    let mut j: usize = 0;
    while j < s.len()
        invariant
            j <= s@.len(),
            r@ == lo + keep_above(s@.take(j as int), x),
        decreases s@.len() - j,
    {
        assert(s@.take(j + 1).drop_last() =~= s@.take(j as int));
        if s[j] > x {
            r.push(s[j]);
        }
        j += 1;
        assert(r@ =~= lo + keep_above(s@.take(j as int), x));
    }
    assert(s@.take(j as int) =~= s@);
    r
}

/// The distinct line numbers of `lines`, ascending.
pub fn sorted_unique_lines(lines: &[u32]) -> (r: Vec<u32>)
    ensures
        r@ == sorted_unique(lines@),
{
    let mut r: Vec<u32> = Vec::new();
    let mut i: usize = 0;
    while i < lines.len()
        invariant
            i <= lines@.len(),
            r@ == sorted_unique(lines@.take(i as int)),
        decreases lines@.len() - i,
    {
        assert(lines@.take(i + 1).drop_last() =~= lines@.take(i as int));
        r = insert_unique_exec(&r, lines[i]);
        i += 1;
    }
    assert(lines@.take(i as int) =~= lines@);
    r
}


// ---------------------------------------------------------------------------
// Escaping paths.
// ---------------------------------------------------------------------------

/// `c` as `char::escape_default` writes it.
pub open spec fn escape_default(c: char) -> Seq<char> {
    if c == '\t' {
        "\\t"@
    } else if c == '\r' {
        "\\r"@
    } else if c == '\n' {
        "\\n"@
    } else if c == '\\' || c == '\'' || c == '"' {
        seq!['\\', c]
    } else if ' ' <= c && c <= '~' {
        seq![c]
    } else {
        "\\u{"@ + hex_lower((c as u32) as nat) + "}"@
    }
}

/// Appends `c` as `char::escape_default` writes it.
pub fn push_escape_default(out: &mut Vec<char>, c: char)
    ensures
        final(out)@ == old(out)@ + escape_default(c),
{
    if c == '\t' {
        push_str(out, "\\t");
    } else if c == '\r' {
        push_str(out, "\\r");
    } else if c == '\n' {
        push_str(out, "\\n");
    } else if c == '\\' || c == '\'' || c == '"' {
        out.push('\\');
        out.push(c);
    } else if ' ' <= c && c <= '~' {
        out.push(c);
    } else {
        push_str(out, "\\u{");
        crate::text::push_hex_lower(out, c as u32);
        push_str(out, "}");
    }
}

/// A path with backslashes and control characters escaped, so that it stays
/// on one line and cannot be mistaken for another path.
pub open spec fn escaped_path(s: Seq<char>) -> Seq<char>
    decreases s.len(),
{
    if s.len() == 0 {
        seq![]
    } else {
        let c = s.last();
        escaped_path(s.drop_last()) + if c == '\\' || is_control(c) {
            escape_default(c)
        } else {
            seq![c]
        }
    }
}

fn push_escaped_path(out: &mut Vec<char>, path: &str)
    ensures
        final(out)@ == old(out)@ + escaped_path(path@),
{
    let cs = chars_of(path);
    let ghost start = out@;
    let mut i: usize = 0;
    while i < cs.len()
        invariant
            i <= cs@.len(),
            cs@ == path@,
            out@ == start + escaped_path(cs@.take(i as int)),
        decreases cs@.len() - i,
    {
        assert(cs@.take(i + 1).drop_last() =~= cs@.take(i as int));
        let c = cs[i];
        if c == '\\' || crate::text::char_is_control(c) {
            push_escape_default(out, c);
        } else {
            out.push(c);
        }
        i += 1;
        assert(out@ =~= start + escaped_path(cs@.take(i as int)));
    }
    assert(cs@.take(i as int) =~= cs@);
}

/// The path with backslashes and control characters escaped.
pub fn escape_path(path: &str) -> (r: String)
    ensures
        r@ == escaped_path(path@),
{
    let mut out: Vec<char> = Vec::new();
    push_escaped_path(&mut out, path);
    crate::text::string_of(&out)
}

// ---------------------------------------------------------------------------
// Line ranges.
// ---------------------------------------------------------------------------

/// `5` or `5-7`.
pub open spec fn plain_range_text(r: (u32, u32)) -> Seq<char> {
    if r.0 == r.1 {
        dec(r.0 as nat)
    } else {
        dec(r.0 as nat) + "-"@ + dec(r.1 as nat)
    }
}

pub fn format_range(start: u32, end: u32) -> (r: String)
    ensures
        r@ == plain_range_text((start, end)),
{
    let mut out: Vec<char> = Vec::new();
    push_dec(&mut out, start as u64);
    if start != end {
        push_str(&mut out, "-");
        push_dec(&mut out, end as u64);
    }
    crate::text::string_of(&out)
}

/// The texts of the runs of consecutive line numbers of `lines`.
pub fn line_ranges(lines: &[u32]) -> (r: Vec<String>)
    ensures
        r@.len() == ranges_of(lines@).len(),
        forall|i: int|
            0 <= i < r@.len() ==> (#[trigger] r@[i])@ == plain_range_text(ranges_of(lines@)[i]),
{
    let ranges = crate::report_github::line_number_ranges(lines);
    let mut out: Vec<String> = Vec::new();
    let mut i: usize = 0;
    while i < ranges.len()
        invariant
            i <= ranges@.len(),
            ranges@ == ranges_of(lines@),
            out@.len() == i,
            forall|j: int| 0 <= j < i ==> (#[trigger] out@[j])@ == plain_range_text(ranges@[j]),
        decreases ranges@.len() - i,
    {
        out.push(format_range(ranges[i].0, ranges[i].1));
        i += 1;
    }
    out
}

/// The runs of `lines`, comma-separated.
pub open spec fn ranges_text(lines: Seq<u32>) -> Seq<char> {
    join(ranges_of(lines).map_values(|r: (u32, u32)| plain_range_text(r)), ","@)
}

fn push_ranges_text(out: &mut Vec<char>, lines: &[u32])
    ensures
        final(out)@ == old(out)@ + ranges_text(lines@),
{
    let ranges = line_ranges(lines);
    let ghost texts = ranges_of(lines@).map_values(|r: (u32, u32)| plain_range_text(r));
    let ghost start = out@;
    let mut i: usize = 0;
    while i < ranges.len()
        invariant
            i <= ranges@.len(),
            ranges@.len() == texts.len(),
            texts == ranges_of(lines@).map_values(|r: (u32, u32)| plain_range_text(r)),
            forall|j: int|
                0 <= j < ranges@.len() ==> (#[trigger] ranges@[j])@ == plain_range_text(
                    ranges_of(lines@)[j],
                ),
            out@ == start + join(texts.take(i as int), ","@),
        decreases ranges@.len() - i,
    {
        proof {
            crate::text::lemma_join_push(texts.take(i as int), ","@, texts[i as int]);
            assert(texts.take(i as int).push(texts[i as int]) =~= texts.take(i + 1));
        }
        if i > 0 {
            push_str(out, ",");
        }
        push_str(out, ranges[i].as_str());
        i += 1;
    }
    assert(texts.take(i as int) =~= texts);
}


// ---------------------------------------------------------------------------
// Files ordered by path.
// ---------------------------------------------------------------------------

/// The files of `s` whose path does not come after that of `x`, in order.
pub open spec fn keep_not_after(s: Seq<FileDelta>, x: FileDelta) -> Seq<FileDelta>
    decreases s.len(),
{
    if s.len() == 0 {
        seq![]
    } else if !seq_lt(x.path@, s.last().path@) {
        keep_not_after(s.drop_last(), x).push(s.last())
    } else {
        keep_not_after(s.drop_last(), x)
    }
}

/// The files of `s` whose path comes after that of `x`, in order.
pub open spec fn keep_after(s: Seq<FileDelta>, x: FileDelta) -> Seq<FileDelta>
    decreases s.len(),
{
    if s.len() == 0 {
        seq![]
    } else if seq_lt(x.path@, s.last().path@) {
        keep_after(s.drop_last(), x).push(s.last())
    } else {
        keep_after(s.drop_last(), x)
    }
}

/// `x` placed into a list ordered by path, after the files of equal path.
pub open spec fn insert_by_path(s: Seq<FileDelta>, x: FileDelta) -> Seq<FileDelta> {
    keep_not_after(s, x).push(x) + keep_after(s, x)
}

/// `s` ordered by path; files of equal path keep their order (a stable sort).
pub open spec fn sort_by_path(s: Seq<FileDelta>) -> Seq<FileDelta>
    decreases s.len(),
{
    if s.len() == 0 {
        seq![]
    } else {
        insert_by_path(sort_by_path(s.drop_last()), s.last())
    }
}

/// The files at the positions `idx`.
pub open spec fn picked(files: Seq<FileDelta>, idx: Seq<usize>) -> Seq<FileDelta>
    decreases idx.len(),
{
    if idx.len() == 0 {
        seq![]
    } else {
        picked(files, idx.drop_last()).push(files[idx.last() as int])
    }
}

pub open spec fn indices_below(idx: Seq<usize>, n: int) -> bool {
    forall|j: int| 0 <= j < idx.len() ==> #[trigger] idx[j] < n
}

proof fn lemma_picked_push(files: Seq<FileDelta>, idx: Seq<usize>, j: usize)
    ensures
        picked(files, idx.push(j)) == picked(files, idx).push(files[j as int]),
{
    assert(idx.push(j).drop_last() =~= idx);
}

proof fn lemma_keep_push(s: Seq<FileDelta>, y: FileDelta, x: FileDelta)
    ensures
        keep_not_after(s.push(y), x) == if !seq_lt(x.path@, y.path@) {
            keep_not_after(s, x).push(y)
        } else {
            keep_not_after(s, x)
        },
        keep_after(s.push(y), x) == if seq_lt(x.path@, y.path@) {
            keep_after(s, x).push(y)
        } else {
            keep_after(s, x)
        },
{
    assert(s.push(y).drop_last() =~= s);
}

fn insert_by_path_exec(files: &Vec<FileDelta>, order: &Vec<usize>, k: usize) -> (r: Vec<usize>)
    requires
        k < files@.len(),
        indices_below(order@, files@.len() as int),
    ensures
        indices_below(r@, files@.len() as int),
        picked(files@, r@) == insert_by_path(picked(files@, order@), files@[k as int]),
{
    let key = chars_of(files[k].path.as_str());
    let ghost x = files@[k as int];
    let mut r: Vec<usize> = Vec::new();
    let mut i: usize = 0;
    while i < order.len()
        invariant
            i <= order@.len(),
            k < files@.len(),
            x == files@[k as int],
            key@ == x.path@,
            indices_below(order@, files@.len() as int),
            indices_below(r@, files@.len() as int),
            picked(files@, r@) == keep_not_after(picked(files@, order@.take(i as int)), x),
        decreases order@.len() - i,
    {
        let j = order[i];
        assert(order@[i as int] < files@.len());
        proof {
            assert(order@.take(i + 1) =~= order@.take(i as int).push(j));
            lemma_picked_push(files@, order@.take(i as int), j);
            lemma_keep_push(picked(files@, order@.take(i as int)), files@[j as int], x);
        }
        let other = chars_of(files[j].path.as_str());
        if !crate::text::chars_lt(&key, &other) {
            proof {
                lemma_picked_push(files@, r@, j);
            }
            r.push(j);
        }
        i += 1;
    }
    assert(order@.take(i as int) =~= order@);
    let ghost lo = picked(files@, r@);
    proof {
        lemma_picked_push(files@, r@, k);
    }
    r.push(k);
    let ghost lo2 = picked(files@, r@);
    assert(lo2 == lo.push(x));
    assert(keep_after(picked(files@, order@.take(0)), x) =~= seq![]);
    assert(picked(files@, r@) =~= lo2 + keep_after(picked(files@, order@.take(0)), x));
    let mut m: usize = 0;
    while m < order.len()
        invariant
            m <= order@.len(),
            k < files@.len(),
            x == files@[k as int],
            key@ == x.path@,
            indices_below(order@, files@.len() as int),
            indices_below(r@, files@.len() as int),
            picked(files@, r@) == lo2 + keep_after(picked(files@, order@.take(m as int)), x),
        decreases order@.len() - m,
    {
        let j = order[m];
        assert(order@[m as int] < files@.len());
        proof {
            assert(order@.take(m + 1) =~= order@.take(m as int).push(j));
            lemma_picked_push(files@, order@.take(m as int), j);
            lemma_keep_push(picked(files@, order@.take(m as int)), files@[j as int], x);
        }
        let other = chars_of(files[j].path.as_str());
        if crate::text::chars_lt(&key, &other) {
            proof {
                lemma_picked_push(files@, r@, j);
            }
            r.push(j);
            assert(picked(files@, r@) =~= lo2 + keep_after(picked(files@, order@.take(m + 1)), x));
        }
        m += 1;
    }
    assert(order@.take(m as int) =~= order@);
    r
}

/// The positions of the files with uncovered changed lines, ordered by path.
fn uncovered_by_path(files: &Vec<FileDelta>) -> (r: Vec<usize>)
    ensures
        indices_below(r@, files@.len() as int),
        picked(files@, r@) == sort_by_path(uncovered_files(files@)),
{
    let mut order: Vec<usize> = Vec::new();
    let mut i: usize = 0;
    while i < files.len()
        invariant
            i <= files@.len(),
            indices_below(order@, files@.len() as int),
            picked(files@, order@) == sort_by_path(uncovered_files(files@.take(i as int))),
        decreases files@.len() - i,
    {
        assert(files@.take(i + 1).drop_last() =~= files@.take(i as int));
        let ghost u = uncovered_files(files@.take(i as int));
        if files[i].diff.uncovered_lines.len() > 0 {
            assert(uncovered_files(files@.take(i + 1)) =~= u.push(files@[i as int]));
            assert(u.push(files@[i as int]).drop_last() =~= u);
            order = insert_by_path_exec(files, &order, i);
        }
        i += 1;
    }
    assert(files@.take(i as int) =~= files@);
    order
}

// ---------------------------------------------------------------------------
// Counting uncovered lines.
// ---------------------------------------------------------------------------

/// The distinct uncovered changed lines of each file, summed.
pub open spec fn distinct_uncovered(files: Seq<FileDelta>) -> int
    decreases files.len(),
{
    if files.len() == 0 {
        0
    } else {
        distinct_uncovered(files.drop_last()) + sorted_unique(
            files.last().diff.uncovered_lines@,
        ).len()
    }
}

/// The number of distinct uncovered changed lines of a file.
pub fn file_uncovered_count(file: &FileDelta) -> (r: usize)
    ensures
        r == sorted_unique(file.diff.uncovered_lines@).len(),
{
    sorted_unique_lines(file.diff.uncovered_lines.as_slice()).len()
}

/// The number of distinct uncovered changed lines, over all files.
pub fn uncovered_count(comparison: &Comparison) -> (r: usize)
    requires
        distinct_uncovered(comparison.files@) <= usize::MAX,
    ensures
        r == distinct_uncovered(comparison.files@),
{
    let mut total: usize = 0;
    let mut i: usize = 0;
    while i < comparison.files.len()
        invariant
            i <= comparison.files@.len(),
            distinct_uncovered(comparison.files@) <= usize::MAX,
            total == distinct_uncovered(comparison.files@.take(i as int)),
        decreases comparison.files@.len() - i,
    {
        assert(comparison.files@.take(i + 1).drop_last() =~= comparison.files@.take(i as int));
        proof {
            lemma_distinct_uncovered_prefix(comparison.files@, i + 1);
        }
        total = total + file_uncovered_count(&comparison.files[i]);
        i += 1;
    }
    assert(comparison.files@.take(i as int) =~= comparison.files@);
    total
}

/// Whether the distinct uncovered changed lines over all files can be
/// counted in a `usize`.
pub fn uncovered_count_fits(comparison: &Comparison) -> (r: bool)
    ensures
        r == (distinct_uncovered(comparison.files@) <= usize::MAX),
{
    let mut total: usize = 0;
    let mut i: usize = 0;
    while i < comparison.files.len()
        invariant
            i <= comparison.files@.len(),
            total == distinct_uncovered(comparison.files@.take(i as int)),
        decreases comparison.files@.len() - i,
    {
        assert(comparison.files@.take(i + 1).drop_last() =~= comparison.files@.take(i as int));
        let x = file_uncovered_count(&comparison.files[i]);
        if x > usize::MAX - total {
            proof {
                lemma_distinct_uncovered_prefix(comparison.files@, i + 1);
            }
            return false;
        }
        total = total + x;
        i += 1;
    }
    assert(comparison.files@.take(i as int) =~= comparison.files@);
    true
}

/// Whether a comparison's summary can be written: its totals and its count
/// of uncovered changed lines fit.
pub fn comparison_summary_fits(comparison: &Comparison) -> (r: bool)
    ensures
        r == summary_fits(*comparison),
{
    crate::report_github::comparison_totals_fit(comparison) && uncovered_count_fits(comparison)
}

proof fn lemma_distinct_uncovered_prefix(files: Seq<FileDelta>, n: int)
    requires
        0 <= n <= files.len(),
    ensures
        0 <= distinct_uncovered(files.take(n)) <= distinct_uncovered(files),
    decreases files.len(),
{
    if n == files.len() {
        assert(files.take(n) =~= files);
        if files.len() > 0 {
            lemma_distinct_uncovered_prefix(files.drop_last(), n - 1);
        }
    } else {
        assert(files.drop_last().take(n) =~= files.take(n));
        lemma_distinct_uncovered_prefix(files.drop_last(), n);
    }
}


// ---------------------------------------------------------------------------
// The summary.
// ---------------------------------------------------------------------------

/// What a summary is called and how its uncovered lines are labelled.
#[derive(Debug, Clone, Copy)]
pub struct RenderOptions {
    pub heading: &'static str,
    pub uncovered_qualifier: &'static str,
    pub marker: &'static str,
    pub show_changed_line_coverage: bool,
}

impl RenderOptions {
    /// The summary of all uncovered lines of a repository.
    pub fn repo_wide() -> (r: Self)
        ensures
            r.heading@ == "Coverage"@,
            r.uncovered_qualifier@ == ""@,
            r.marker@ == "uncovered"@,
            !r.show_changed_line_coverage,
    {
        RenderOptions {
            heading: "Coverage",
            uncovered_qualifier: "",
            marker: "uncovered",
            show_changed_line_coverage: false,
        }
    }

    /// The options of the summary of the uncovered lines a change touched.
    pub open spec fn diff_spec() -> Self {
        RenderOptions {
            heading: "Coverage diff",
            uncovered_qualifier: "changed ",
            marker: "changed-uncovered",
            show_changed_line_coverage: true,
        }
    }

    /// The summary of the uncovered lines a change touched.
    pub fn diff() -> (r: Self)
        ensures
            r == Self::diff_spec(),
            r.heading@ == "Coverage diff"@,
            r.uncovered_qualifier@ == "changed "@,
            r.marker@ == "changed-uncovered"@,
            r.show_changed_line_coverage,
    {
        RenderOptions {
            heading: "Coverage diff",
            uncovered_qualifier: "changed ",
            marker: "changed-uncovered",
            show_changed_line_coverage: true,
        }
    }
}

/// At most this many affected paths are listed.
pub const MAX_RENDERED_SCOPE_PATHS: usize = 100;

pub open spec fn heading_line(o: RenderOptions, u: nat) -> Seq<char> {
    if u == 0 {
        o.heading@ + ": no uncovered "@ + o.uncovered_qualifier@ + "executable lines\n"@
    } else {
        o.heading@ + ": "@ + dec(u) + " uncovered "@ + o.uncovered_qualifier@ + "executable "@
            + (if u == 1 {
            "line"@
        } else {
            "lines"@
        }) + "\n"@
    }
}

/// A percentage-point delta with its sign and two decimals: `+1.50pp`.
pub open spec fn signed_delta_text(hc: nat, ht: nat, bc: nat, bt: nat) -> Seq<char> {
    let n = delta_scaled(hc, ht, bc, bt);
    let h = round_half_even(
        if n < 0 {
            -n
        } else {
            n
        },
        (ht * bt) as int,
    );
    (if n < 0 {
        "-"@
    } else {
        "+"@
    }) + fixed2(h as nat) + "pp"@
}

/// The total-coverage delta: `no baseline`, `coverage scope changed`, `n/a`
/// when a side has no executable lines, or the signed delta.
pub open spec fn total_delta_text(comp: Comparison, scope_changed: bool) -> Seq<char> {
    if !comp.base_available {
        "no baseline"@
    } else if scope_changed {
        "coverage scope changed"@
    } else {
        match crate::report_github::comparison_delta(comp) {
            Some((hc, ht, bc, bt)) => signed_delta_text(hc, ht, bc, bt),
            None => "n/a"@,
        }
    }
}

pub open spec fn scope_label(k: CoverageScopeChangeKind) -> Seq<char> {
    match k {
        CoverageScopeChangeKind::Appeared => "appeared"@,
        CoverageScopeChangeKind::Disappeared => "disappeared"@,
    }
}

pub open spec fn scope_lines(e: Seq<CoverageScopeEntry>) -> Seq<char>
    decreases e.len(),
{
    if e.len() == 0 {
        seq![]
    } else {
        scope_lines(e.drop_last()) + scope_label(e.last().kind) + ": "@ + escaped_path(
            e.last().path@,
        ) + "\n"@
    }
}

pub open spec fn omitted_text(n: nat) -> Seq<char> {
    if n > 0 {
        "... and "@ + dec(n) + " more\n"@
    } else {
        seq![]
    }
}

/// The first hundred entries, and how many more there are.
pub open spec fn shown_entries(e: Seq<CoverageScopeEntry>) -> Seq<CoverageScopeEntry> {
    if e.len() <= 100 {
        e
    } else {
        e.take(100)
    }
}

pub open spec fn omitted_count(e: Seq<CoverageScopeEntry>) -> nat {
    if e.len() <= 100 {
        0
    } else {
        (e.len() - 100) as nat
    }
}

pub open spec fn scope_section(e: Seq<CoverageScopeEntry>) -> Seq<char> {
    "Coverage scope changed; aggregate delta suppressed\n"@ + scope_lines(shown_entries(e))
        + omitted_text(omitted_count(e))
}

/// One file's line: its escaped path, its runs of distinct uncovered lines,
/// and the marker.
pub open spec fn file_entry(f: FileDelta, marker: Seq<char>) -> Seq<char> {
    escaped_path(f.path@) + ":"@ + ranges_text(sorted_unique(f.diff.uncovered_lines@)) + " ["@
        + marker + "]\n"@
}

pub open spec fn file_entries(s: Seq<FileDelta>, marker: Seq<char>) -> Seq<char>
    decreases s.len(),
{
    if s.len() == 0 {
        seq![]
    } else {
        file_entries(s.drop_last(), marker) + file_entry(s.last(), marker)
    }
}

/// The total coverage line.
pub open spec fn total_line(comp: Comparison, scope_changed: bool) -> Seq<char> {
    let h = counts_total(head_side(comp.files@));
    "Total coverage: "@ + pct_text(h.0 as nat, h.1 as nat) + " ("@ + total_delta_text(
        comp,
        scope_changed,
    ) + ")\n"@
}

/// The changed-line coverage line, when the options ask for it.
pub open spec fn changed_line(comp: Comparison, o: RenderOptions) -> Seq<char> {
    let d = diff_total(comp.files@);
    if o.show_changed_line_coverage {
        "Changed-line coverage: "@ + pct_text(d.1 as nat, d.0 as nat) + " ("@ + dec(d.1 as nat)
            + "/"@ + dec(d.0 as nat) + ")\n"@
    } else {
        seq![]
    }
}

pub open spec fn scope_part(scope: Option<Seq<CoverageScopeEntry>>) -> Seq<char> {
    match scope {
        Some(e) => scope_section(e),
        None => seq![],
    }
}

pub open spec fn files_part(comp: Comparison, o: RenderOptions) -> Seq<char> {
    if distinct_uncovered(comp.files@) > 0 {
        file_entries(sort_by_path(uncovered_files(comp.files@)), o.marker@)
    } else {
        seq![]
    }
}

/// The whole summary; `scope` holds the affected entries when the coverage
/// scope changed.
pub open spec fn summary_text(
    context: Seq<char>,
    comp: Comparison,
    scope: Option<Seq<CoverageScopeEntry>>,
    o: RenderOptions,
) -> Seq<char> {
    heading_line(o, distinct_uncovered(comp.files@) as nat) + context + "\n"@ + total_line(
        comp,
        scope is Some,
    ) + changed_line(comp, o) + scope_part(scope) + files_part(comp, o)
}

/// The affected entries of an analysis when its scope changed, `None` when
/// it did not.
pub open spec fn scope_of(a: ComparisonAnalysis, scope: Option<Seq<CoverageScopeEntry>>) -> bool {
    if a.scope_change.appeared@.len() > 0 || a.scope_change.disappeared@.len() > 0 {
        scope matches Some(e) && exists|n: int|
            #[trigger] affected_split(
                e,
                n,
                a.scope_change.appeared@,
                a.scope_change.disappeared@,
            )
    } else {
        scope is None
    }
}

pub(crate) proof fn lemma_scope_of_some(a: ComparisonAnalysis, e: Seq<CoverageScopeEntry>, n: int)
    requires
        a.scope_change.appeared@.len() > 0 || a.scope_change.disappeared@.len() > 0,
        affected_split(e, n, a.scope_change.appeared@, a.scope_change.disappeared@),
    ensures
        scope_of(a, Some(e)),
{
    assert(exists|k: int|
        #[trigger] affected_split(e, k, a.scope_change.appeared@, a.scope_change.disappeared@));
    let s: Option<Seq<CoverageScopeEntry>> = Some(e);
    assert(s matches Some(x) && x == e);
}

/// What a summary can hold without overflow.
pub open spec fn summary_fits(comp: Comparison) -> bool {
    &&& totals_fit(comp)
    &&& distinct_uncovered(comp.files@) <= usize::MAX
}


fn push_total_delta(out: &mut Vec<char>, comparison: &Comparison, scope_changed: bool)
    requires
        totals_fit(*comparison),
    ensures
        final(out)@ == old(out)@ + total_delta_text(*comparison, scope_changed),
{
    if !comparison.base_available {
        push_str(out, "no baseline");
        return;
    }
    if scope_changed {
        push_str(out, "coverage scope changed");
        return;
    }
    let head = comparison.head_totals();
    let base = comparison.base_totals();
    if head.executable == 0 || base.executable == 0 {
        push_str(out, "n/a");
        return;
    }
    let d = crate::pct::percent_delta(head.covered, head.executable, base.covered, base.executable);
    if d.negative {
        push_str(out, "-");
    } else {
        push_str(out, "+");
    }
    crate::pct::push_fixed2(out, d.hundredths);
    push_str(out, "pp");
}

/// The total-coverage delta as the summary writes it.
pub fn format_delta(comparison: &Comparison, analysis: Option<&ComparisonAnalysis>) -> (r: String)
    requires
        totals_fit(*comparison),
    ensures
        r@ == total_delta_text(
            *comparison,
            analysis matches Some(a) && (a.scope_change.appeared@.len() > 0
                || a.scope_change.disappeared@.len() > 0),
        ),
{
    let changed = match analysis {
        Some(a) => a.scope_changed(),
        None => false,
    };
    let mut out: Vec<char> = Vec::new();
    push_total_delta(&mut out, comparison, changed);
    crate::text::string_of(&out)
}

/// The first hundred affected entries, and how many more there are.
pub fn bounded_scope_entries(analysis: &ComparisonAnalysis) -> (r: (Vec<CoverageScopeEntry<'_>>, usize))
    ensures
        exists|e: Seq<CoverageScopeEntry>, n: int|
            #[trigger] affected_split(
                e,
                n,
                analysis.scope_change.appeared@,
                analysis.scope_change.disappeared@,
            ) && r.0@ == shown_entries(e) && r.1 == omitted_count(e),
{
    let entries = analysis.affected_entries();
    let omitted: usize = if entries.len() > MAX_RENDERED_SCOPE_PATHS {
        entries.len() - MAX_RENDERED_SCOPE_PATHS
    } else {
        0
    };
    let n = if entries.len() > MAX_RENDERED_SCOPE_PATHS {
        MAX_RENDERED_SCOPE_PATHS
    } else {
        entries.len()
    };
    let mut shown: Vec<CoverageScopeEntry<'_>> = Vec::new();
    let mut i: usize = 0;
    while i < n
        invariant
            i <= n <= entries@.len(),
            shown@ == entries@.take(i as int),
        decreases n - i,
    {
        shown.push(entries[i]);
        i += 1;
        assert(shown@ =~= entries@.take(i as int));
    }
    assert(shown@ =~= shown_entries(entries@));
    (shown, omitted)
}

/// Appends `... and N more` when `omitted` entries were left out.
pub fn render_omitted_scope_count(out: &mut String, omitted: usize)
    ensures
        final(out)@ == old(out)@ + omitted_text(omitted as nat),
{
    if omitted > 0 {
        let mut line: Vec<char> = Vec::new();
        push_str(&mut line, "... and ");
        push_dec(&mut line, omitted as u64);
        push_str(&mut line, " more\n");
        let text = crate::text::string_of(&line);
        out.append(text.as_str());
    }
}

fn push_scope_section<'a>(out: &mut Vec<char>, analysis: &'a ComparisonAnalysis) -> (e: Ghost<Seq<CoverageScopeEntry<'a>>>)
    ensures
        exists|n: int|
            #[trigger] affected_split(
                e@,
                n,
                analysis.scope_change.appeared@,
                analysis.scope_change.disappeared@,
            ),
        final(out)@ == old(out)@ + scope_section(e@),
{
    let entries = analysis.affected_entries();
    let ghost e = entries@;
    push_str(out, "Coverage scope changed; aggregate delta suppressed\n");
    let n = if entries.len() > MAX_RENDERED_SCOPE_PATHS {
        MAX_RENDERED_SCOPE_PATHS
    } else {
        entries.len()
    };
    let ghost shown = shown_entries(e);
    assert(shown =~= e.take(n as int));
    let ghost start = out@;
    let mut i: usize = 0;
    while i < n
        invariant
            i <= n <= entries@.len(),
            e == entries@,
            shown == e.take(n as int),
            out@ == start + scope_lines(shown.take(i as int)),
        decreases n - i,
    {
        assert(shown.take(i + 1).drop_last() =~= shown.take(i as int));
        let entry = entries[i];
        match entry.kind {
            CoverageScopeChangeKind::Appeared => push_str(out, "appeared"),
            CoverageScopeChangeKind::Disappeared => push_str(out, "disappeared"),
        }
        push_str(out, ": ");
        push_escaped_path(out, entry.path);
        push_str(out, "\n");
        i += 1;
        assert(out@ =~= start + scope_lines(shown.take(i as int)));
    }
    assert(shown.take(i as int) =~= shown);
    if entries.len() > MAX_RENDERED_SCOPE_PATHS {
        push_str(out, "... and ");
        push_dec(out, (entries.len() - MAX_RENDERED_SCOPE_PATHS) as u64);
        push_str(out, " more\n");
    }
    assert(out@ =~= old(out)@ + scope_section(e));
    Ghost(e)
}

fn push_file_entries(out: &mut Vec<char>, files: &Vec<FileDelta>, marker: &str)
    ensures
        final(out)@ == old(out)@ + file_entries(sort_by_path(uncovered_files(files@)), marker@),
{
    let order = uncovered_by_path(files);
    let ghost start = out@;
    let mut i: usize = 0;
    while i < order.len()
        invariant
            i <= order@.len(),
            indices_below(order@, files@.len() as int),
            out@ == start + file_entries(picked(files@, order@.take(i as int)), marker@),
        decreases order@.len() - i,
    {
        let k = order[i];
        assert(order@[i as int] < files@.len());
        proof {
            assert(order@.take(i + 1) =~= order@.take(i as int).push(k));
            lemma_picked_push(files@, order@.take(i as int), k);
            let p = picked(files@, order@.take(i as int));
            assert(p.push(files@[k as int]).drop_last() =~= p);
        }
        let file = &files[k];
        push_escaped_path(out, file.path.as_str());
        push_str(out, ":");
        let lines = sorted_unique_lines(file.diff.uncovered_lines.as_slice());
        push_ranges_text(out, lines.as_slice());
        push_str(out, " [");
        push_str(out, marker);
        push_str(out, "]\n");
        i += 1;
        assert(out@ =~= start + file_entries(picked(files@, order@.take(i as int)), marker@));
    }
    assert(order@.take(i as int) =~= order@);
}

/// The summary of a comparison: a heading with the number of distinct
/// uncovered lines, the context line, the total coverage with its delta, the
/// changed-line coverage when the options ask for it, the coverage-scope
/// notice when the analysis has one, and one line per file with uncovered
/// lines, ordered by path.
pub fn render_comparison_inner(
    context: &str,
    comparison: &Comparison,
    analysis: Option<&ComparisonAnalysis>,
    options: RenderOptions,
) -> (r: String)
    requires
        summary_fits(*comparison),
    ensures
        analysis matches None ==> r@ == summary_text(context@, *comparison, None, options),
        analysis matches Some(a) ==> exists|scope: Option<Seq<CoverageScopeEntry>>|
            #[trigger] scope_of(*a, scope) && r@ == summary_text(
                context@,
                *comparison,
                scope,
                options,
            ),
{
    let uncovered = uncovered_count(comparison);
    let mut out: Vec<char> = Vec::new();
    push_heading(&mut out, options, uncovered);
    push_str(&mut out, context);
    push_str(&mut out, "\n");
    let changed = match analysis {
        Some(a) => a.scope_changed(),
        None => false,
    };
    let ghost p1 = out@;
    push_total_line(&mut out, comparison, changed);
    let ghost p2 = out@;
    push_changed_line(&mut out, comparison, options);
    let ghost p3 = out@;
    let ghost mut scope: Option<Seq<CoverageScopeEntry>> = None;
    if changed {
        match analysis {
            Some(a) => {
                let e = push_scope_section(&mut out, a);
                proof {
                    scope = Some(e@);
                }
            },
            None => {},
        }
    }
    let ghost p4 = out@;
    assert(p4 == p3 + scope_part(scope));
    if uncovered > 0 {
        push_file_entries(&mut out, &comparison.files, options.marker);
    }
    assert(out@ == p4 + files_part(*comparison, options));
    proof {
        assert(p1 == heading_line(options, uncovered as nat) + context@ + "\n"@);
        assert(out@ =~= summary_text(context@, *comparison, scope, options));
        match analysis {
            Some(a) => {
                assert(scope_of(*a, scope));
            },
            None => {},
        }
    }
    crate::text::string_of(&out)
}

fn push_heading(out: &mut Vec<char>, options: RenderOptions, uncovered: usize)
    ensures
        final(out)@ == old(out)@ + heading_line(options, uncovered as nat),
{
    push_str(out, options.heading);
    if uncovered == 0 {
        push_str(out, ": no uncovered ");
        push_str(out, options.uncovered_qualifier);
        push_str(out, "executable lines\n");
    } else {
        push_str(out, ": ");
        push_dec(out, uncovered as u64);
        push_str(out, " uncovered ");
        push_str(out, options.uncovered_qualifier);
        push_str(out, "executable ");
        if uncovered == 1 {
            push_str(out, "line");
        } else {
            push_str(out, "lines");
        }
        push_str(out, "\n");
    }
    assert(final(out)@ =~= old(out)@ + heading_line(options, uncovered as nat));
}

fn push_total_line(out: &mut Vec<char>, comparison: &Comparison, changed: bool)
    requires
        totals_fit(*comparison),
    ensures
        final(out)@ == old(out)@ + total_line(*comparison, changed),
{
    let totals = comparison.head_totals();
    push_str(out, "Total coverage: ");
    crate::pct::push_pct(out, totals.covered, totals.executable);
    push_str(out, " (");
    push_total_delta(out, comparison, changed);
    push_str(out, ")\n");
    assert(final(out)@ =~= old(out)@ + total_line(*comparison, changed));
}

fn push_changed_line(out: &mut Vec<char>, comparison: &Comparison, options: RenderOptions)
    requires
        totals_fit(*comparison),
    ensures
        final(out)@ == old(out)@ + changed_line(*comparison, options),
{
    if options.show_changed_line_coverage {
        let diff = comparison.diff_totals();
        push_str(out, "Changed-line coverage: ");
        crate::pct::push_pct(out, diff.covered as u64, diff.relevant as u64);
        push_str(out, " (");
        push_dec(out, diff.covered as u64);
        push_str(out, "/");
        push_dec(out, diff.relevant as u64);
        push_str(out, ")\n");
    }
    assert(final(out)@ =~= old(out)@ + changed_line(*comparison, options));
}

/// The summary of a comparison's changed lines.
pub fn render_comparison(context: &str, comparison: &Comparison) -> (r: String)
    requires
        summary_fits(*comparison),
    ensures
        r@ == summary_text(context@, *comparison, None, RenderOptions::diff_spec()),
{
    render_comparison_with_options(context, comparison, RenderOptions::diff())
}

/// The summary of an analysis's changed lines, with its coverage-scope notice.
pub fn render_comparison_analysis(context: &str, analysis: &ComparisonAnalysis) -> (r: String)
    requires
        summary_fits(analysis.comparison),
    ensures
        exists|scope: Option<Seq<CoverageScopeEntry>>|
            #[trigger] scope_of(*analysis, scope) && r@ == summary_text(
                context@,
                analysis.comparison,
                scope,
                RenderOptions::diff_spec(),
            ),
{
    render_comparison_inner(context, &analysis.comparison, Some(analysis), RenderOptions::diff())
}

/// The summary of a comparison under the given options.
pub fn render_comparison_with_options(
    context: &str,
    comparison: &Comparison,
    options: RenderOptions,
) -> (r: String)
    requires
        summary_fits(*comparison),
    ensures
        r@ == summary_text(context@, *comparison, None, options),
{
    render_comparison_inner(context, comparison, None, options)
}

} // verus!
