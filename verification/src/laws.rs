//! Properties that hold across the library's functions: the LCOV merge rule,
//! idempotent normalization, what the line and branch counts measure of the
//! records read, what a parsed tracefile yields, how comparisons are fixed by
//! their inputs, bounded percentages, and the safety of the text that
//! reports write.
use vstd::prelude::*;

use crate::compare::{
    ChangedLines, ComparisonAnalysis, FileDelta, branch_delta_of, comparison_files,
    line_delta_of,
};
use crate::github_storage::html_escaped;
use crate::model::CoverageSnapshot;
use crate::model::{
    LineHit, clamp, has_line, line_total, lines_merged, lines_sorted, merge_taken_spec,
};
use crate::pct::{Delta, fixed2, pct_hundredths, round_half_even};
use crate::report_markdown::md_delta_text;
use crate::report_html::html_delta_text;
use crate::report_github::{
    uncovered_entries, uncovered_entry, uncovered_files, uncovered_section, uncovered_total,
};
use crate::compare::{
    Comparison, DiffCoverage, changed_covered_count, changed_line_count, changed_uncovered,
    diff_coverage_of,
};
use crate::diff::{DiffState, diff_step, header_target};
use crate::render::{escape_default, escaped_path};
use crate::report_html::escaped_within;
use crate::report_markdown::visible_text;
use crate::setup_gcs::{dashed, sanitized, trim_end_dashes, trim_start_dashes};
use crate::storage::{Keys, hex_digit, percent_encoded, unreserved};
use crate::text::{is_alnum, is_control, split_once, trim};
use vstd::utf8::encode_utf8;
use crate::model::{
    BranchHit, FileCoverage, FunctionHit, Measure, branch_covered, branches_merged,
    count_covered_branches, count_covered_lines, files_merged, files_total, has_branch, has_path,
    language_of, path_lines, paths_sorted, same_branch,
};
use crate::compare::{base_file_at, counts_total, delta_correct, file_at, head_side};
use crate::text::{seq_lt};
use crate::lcov::{LcovRead, join_parts, lcov_files, lcov_read};
use crate::normal::{
    branch_key, branch_keys, branch_views, covered_bkeys, covered_keys, delta_paths, function_views,
    head_deltas, hit_lines, lemma_branches_merge_unique, lemma_branches_self_merged,
    lemma_covered_bkeys, lemma_covered_keys, lemma_delta_paths_members,
    lemma_functions_merge_unique, lemma_functions_self_merged, lemma_head_deltas_from,
    lemma_head_deltas_sum, lemma_line_total_positive, lemma_lines_merge_unique,
    lemma_lines_self_merged, lemma_lt_keys_differ, lemma_pair_seq, lemma_pair_seq_distinct,
    lemma_partial_lines_unique, lemma_path_lines_has, lemma_sorted_same_members, lemma_sum_matched,
    lemma_taken_covered, lemma_taken_same_key, line_keys, line_pairs, name_lt, pair_seq,
    record_keys, record_lines, same_delta, taken_keys,
};
use crate::tracefile::{
    clean_relative_path, clean_segment, free_of, lemma_join_facts, lemma_walk_clean,
};

verus! {

/// `-` (a branch never evaluated) merges as the other side, and merging
/// taken counts is commutative and associative, so the order in which LCOV
/// records of one branch are merged does not matter.
pub proof fn law_merge_taken(a: Option<u64>, b: Option<u64>, c: Option<u64>)
    ensures
        merge_taken_spec(None, a) == a,
        merge_taken_spec(a, None) == a,
        merge_taken_spec(a, b) == merge_taken_spec(b, a),
        merge_taken_spec(merge_taken_spec(a, b), c) == merge_taken_spec(a, merge_taken_spec(b, c)),
{
}

proof fn lemma_line_total_single(s: Seq<LineHit>, i: int)
    requires
        lines_sorted(s),
        0 <= i < s.len(),
    ensures
        line_total(s, s[i].line) == s[i].hits,
    decreases s.len(),
{
    let t = s.drop_last();
    if i < s.len() - 1 {
        assert(lines_sorted(t));
        lemma_line_total_single(t, i);
        assert(s.last().line != s[i].line);
    } else {
        lemma_line_total_absent_sorted(t, s[i].line);
    }
}

proof fn lemma_line_total_absent_sorted(s: Seq<LineHit>, line: u32)
    requires
        forall|j: int| 0 <= j < s.len() ==> s[j].line != line,
    ensures
        line_total(s, line) == 0,
    decreases s.len(),
{
    if s.len() > 0 {
        lemma_line_total_absent_sorted(s.drop_last(), line);
    }
}

/// Normalizing line hits is idempotent: merged lines are their own merge.
pub proof fn law_lines_merge_idempotent(out: Seq<LineHit>, input: Seq<LineHit>)
    requires
        lines_merged(out, input),
    ensures
        lines_merged(out, out),
{
    assert forall|i: int| 0 <= i < out.len() implies has_line(out, #[trigger] out[i].line)
        && out[i].hits == clamp(line_total(out, out[i].line)) by {
        lemma_line_total_single(out, i);
    }
}

/// A percentage of a part is between 0.00% and 100.00%, and is 100.00% for
/// the whole.
pub proof fn law_percentage_bounds(covered: nat, total: nat)
    requires
        covered <= total,
        total > 0,
    ensures
        0 <= pct_hundredths(covered, total) <= 10000,
        covered == total ==> pct_hundredths(covered, total) == 10000,
        covered == 0 ==> pct_hundredths(covered, total) == 0,
{
    let n: int = (10000 * covered) as int;
    assert(n <= 10000 * total) by (nonlinear_arith)
        requires
            covered <= total,
            n == 10000 * covered,
    ;
    let q = n / (total as int);
    let r = n % (total as int);
    assert(0 <= q <= 10000 && 0 <= r < total && (q == 10000 ==> r == 0)) by (nonlinear_arith)
        requires
            n <= 10000 * total,
            total > 0,
            n >= 0,
            q == n / (total as int),
            r == n % (total as int),
    ;
    if covered == 0 {
        assert(q == 0 && r == 0) by (nonlinear_arith)
            requires
                n == 0,
                total > 0,
                q == n / (total as int),
                r == n % (total as int),
        ;
    }
    if covered == total {
        assert(q == 10000 && r == 0) by (nonlinear_arith)
            requires
                n == 10000 * total,
                total > 0,
                q == n / (total as int),
                r == n % (total as int),
        ;
    }
}

proof fn lemma_concat_all(a: Seq<char>, b: Seq<char>, p: spec_fn(char) -> bool)
    requires
        forall|i: int| 0 <= i < a.len() ==> p(#[trigger] a[i]),
        forall|i: int| 0 <= i < b.len() ==> p(#[trigger] b[i]),
    ensures
        forall|i: int| 0 <= i < (a + b).len() ==> p(#[trigger] (a + b)[i]),
{
    assert forall|i: int| 0 <= i < (a + b).len() implies p(#[trigger] (a + b)[i]) by {
        if i < a.len() {
            assert((a + b)[i] == a[i]);
        } else {
            assert((a + b)[i] == b[i - a.len()]);
        }
    }
}

pub open spec fn inert_char(c: char) -> bool {
    c != '<' && c != '>' && c != '"'
}

/// HTML-escaped text holds no `<`, `>` or `"`, so it cannot open a tag or
/// close an attribute.
pub proof fn law_html_escaped_is_inert(v: Seq<char>)
    ensures
        forall|i: int| 0 <= i < html_escaped(v).len() ==> inert_char(#[trigger] html_escaped(v)[i]),
    decreases v.len(),
{
    if v.len() > 0 {
        law_html_escaped_is_inert(v.drop_last());
        let c = v.last();
        let piece = if c == '&' {
            "&amp;"@
        } else if c == '<' {
            "&lt;"@
        } else if c == '>' {
            "&gt;"@
        } else if c == '"' {
            "&quot;"@
        } else {
            seq![c]
        };
        reveal_strlit("&amp;");
        reveal_strlit("&lt;");
        reveal_strlit("&gt;");
        reveal_strlit("&quot;");
        assert forall|i: int| 0 <= i < piece.len() implies inert_char(#[trigger] piece[i]) by {}
        lemma_concat_all(html_escaped(v.drop_last()), piece, |c: char| inert_char(c));
        assert(html_escaped(v) == html_escaped(v.drop_last()) + piece);
    }
}

pub open spec fn printable_char(c: char) -> bool {
    !is_control(c)
}

proof fn lemma_escape_default_printable(c: char)
    ensures
        forall|i: int| 0 <= i < escape_default(c).len() ==> printable_char(#[trigger] escape_default(c)[i]),
{
    reveal_strlit("\\t");
    reveal_strlit("\\r");
    reveal_strlit("\\n");
    reveal_strlit("\\u{");
    reveal_strlit("}");
    let e = escape_default(c);
    if c == '\t' || c == '\r' || c == '\n' || c == '\\' || c == '\'' || c == '"' || (' ' <= c && c <= '~') {
        assert forall|i: int| 0 <= i < e.len() implies printable_char(#[trigger] e[i]) by {}
    } else {
        let h = crate::text::hex_lower((c as u32) as nat);
        lemma_hex_lower_printable((c as u32) as nat);
        let a = "\\u{"@;
        let z = "}"@;
        assert forall|i: int| 0 <= i < a.len() implies printable_char(#[trigger] a[i]) by {}
        assert forall|i: int| 0 <= i < z.len() implies printable_char(#[trigger] z[i]) by {}
        lemma_concat_all(a, h, |c: char| printable_char(c));
        lemma_concat_all(a + h, z, |c: char| printable_char(c));
    }
}

proof fn lemma_hex_lower_printable(n: nat)
    ensures
        forall|i: int| 0 <= i < crate::text::hex_lower(n).len() ==> printable_char(
            #[trigger] crate::text::hex_lower(n)[i],
        ),
    decreases n,
{
    if n >= 16 {
        lemma_hex_lower_printable(n / 16);
        let p = crate::text::hex_lower(n / 16);
        assert forall|i: int| 0 <= i < crate::text::hex_lower(n).len() implies printable_char(
            #[trigger] crate::text::hex_lower(n)[i],
        ) by {
            if i < p.len() {
                assert(crate::text::hex_lower(n)[i] == p[i]);
            }
        }
    }
}

/// An escaped path holds no control characters: it stays on one line.
pub proof fn law_escaped_path_one_line(s: Seq<char>)
    ensures
        forall|i: int| 0 <= i < escaped_path(s).len() ==> printable_char(#[trigger] escaped_path(s)[i]),
    decreases s.len(),
{
    if s.len() > 0 {
        law_escaped_path_one_line(s.drop_last());
        let c = s.last();
        let piece = if c == '\\' || is_control(c) {
            escape_default(c)
        } else {
            seq![c]
        };
        lemma_escape_default_printable(c);
        assert forall|i: int| 0 <= i < piece.len() implies printable_char(#[trigger] piece[i]) by {}
        lemma_concat_all(escaped_path(s.drop_last()), piece, |c: char| printable_char(c));
    }
}

/// A visible path holds no control characters.
pub proof fn law_visible_text_one_line(s: Seq<char>)
    ensures
        forall|i: int| 0 <= i < visible_text(s).len() ==> printable_char(#[trigger] visible_text(s)[i]),
    decreases s.len(),
{
    if s.len() > 0 {
        law_visible_text_one_line(s.drop_last());
        reveal_strlit("\\n");
        reveal_strlit("\\r");
        reveal_strlit("\\t");
        reveal_strlit("\\u{");
        reveal_strlit("}");
        let c = s.last();
        let piece = if c == '\n' {
            "\\n"@
        } else if c == '\r' {
            "\\r"@
        } else if c == '\t' {
            "\\t"@
        } else if is_control(c) {
            "\\u{"@ + crate::text::hex_upper((c as u32) as nat) + "}"@
        } else {
            seq![c]
        };
        if is_control(c) && c != '\n' && c != '\r' && c != '\t' {
            let h = crate::text::hex_upper((c as u32) as nat);
            lemma_hex_upper_printable((c as u32) as nat);
            let a = "\\u{"@;
            let z = "}"@;
            assert forall|i: int| 0 <= i < a.len() implies printable_char(#[trigger] a[i]) by {}
            assert forall|i: int| 0 <= i < z.len() implies printable_char(#[trigger] z[i]) by {}
            lemma_concat_all(a, h, |c: char| printable_char(c));
            lemma_concat_all(a + h, z, |c: char| printable_char(c));
        } else {
            assert forall|i: int| 0 <= i < piece.len() implies printable_char(#[trigger] piece[i]) by {}
        }
        lemma_concat_all(visible_text(s.drop_last()), piece, |c: char| printable_char(c));
    }
}

proof fn lemma_hex_upper_printable(n: nat)
    ensures
        forall|i: int| 0 <= i < crate::text::hex_upper(n).len() ==> printable_char(
            #[trigger] crate::text::hex_upper(n)[i],
        ),
    decreases n,
{
    if n >= 16 {
        lemma_hex_upper_printable(n / 16);
        let p = crate::text::hex_upper(n / 16);
        assert forall|i: int| 0 <= i < crate::text::hex_upper(n).len() implies printable_char(
            #[trigger] crate::text::hex_upper(n)[i],
        ) by {
            if i < p.len() {
                assert(crate::text::hex_upper(n)[i] == p[i]);
            }
        }
    }
}

/// Sanitized Git error output is at most `budget` characters and an
/// ellipsis.
pub proof fn law_escaped_within_bounded(cs: Seq<char>, budget: nat)
    ensures
        escaped_within(cs, budget).len() <= budget + 1,
    decreases cs.len(),
{
    if cs.len() > 0 {
        let e = escape_default(cs[0]);
        if e.len() <= budget {
            law_escaped_within_bounded(cs.drop_first(), (budget - e.len()) as nat);
        } else {
            reveal_strlit("…");
        }
    }
}

proof fn lemma_trim_start_dashes(s: Seq<char>)
    ensures
        trim_start_dashes(s).len() <= s.len(),
        trim_start_dashes(s) == s.skip(s.len() - trim_start_dashes(s).len()),
        trim_start_dashes(s).len() > 0 ==> trim_start_dashes(s)[0] != '-',
    decreases s.len(),
{
    if s.len() > 0 && s[0] == '-' {
        lemma_trim_start_dashes(s.drop_first());
        assert(s.drop_first().skip(s.drop_first().len() - trim_start_dashes(s).len()) =~= s.skip(
            s.len() - trim_start_dashes(s).len(),
        ));
    } else {
        assert(s.skip(0) =~= s);
    }
}

proof fn lemma_trim_end_dashes(s: Seq<char>)
    ensures
        trim_end_dashes(s) == s.take(trim_end_dashes(s).len() as int),
        trim_end_dashes(s).len() <= s.len(),
        trim_end_dashes(s).len() > 0 ==> trim_end_dashes(s).last() != '-',
    decreases s.len(),
{
    if s.len() > 0 && s.last() == '-' {
        lemma_trim_end_dashes(s.drop_last());
        assert(s.drop_last().take(trim_end_dashes(s).len() as int) =~= s.take(
            trim_end_dashes(s).len() as int,
        ));
    } else {
        assert(s.take(s.len() as int) =~= s);
    }
}

/// A sanitized resource name holds only ASCII letters, digits and `-`, does
/// not start or end with `-`, and is at most `max_len` characters long.
pub proof fn law_sanitized_name(lowered: Seq<char>, max_len: nat)
    ensures
        sanitized(lowered, max_len).len() <= max_len,
        forall|i: int|
            0 <= i < sanitized(lowered, max_len).len() ==> is_alnum(
                #[trigger] sanitized(lowered, max_len)[i],
            ) || sanitized(lowered, max_len)[i] == '-',
        sanitized(lowered, max_len).len() > 0 ==> sanitized(lowered, max_len)[0] != '-'
            && sanitized(lowered, max_len).last() != '-',
{
    let d = dashed(lowered);
    let a = trim_start_dashes(d);
    lemma_trim_start_dashes(d);
    let t = trim_end_dashes(a);
    lemma_trim_end_dashes(a);
    let u = if t.len() > max_len { t.take(max_len as int) } else { t };
    let r = trim_end_dashes(u);
    lemma_trim_end_dashes(u);
    assert(r == sanitized(lowered, max_len));
    assert forall|i: int| 0 <= i < r.len() implies is_alnum(#[trigger] r[i]) || r[i] == '-' by {
        assert(r[i] == u[i]);
        assert(u[i] == t[i]);
        assert(t[i] == a[i]);
        assert(a[i] == d[i + (d.len() - a.len())]);
    }
    if r.len() > 0 {
        assert(r[0] == a[0]);
    }
}


// ---------------------------------------------------------------------------
// Branch names in storage keys.
// ---------------------------------------------------------------------------

pub open spec fn hex_value(c: char) -> int {
    if c <= '9' {
        (c as u32) - 48
    } else {
        (c as u32) - 55
    }
}

/// Reads percent-encoded text back into bytes, from the end.
pub open spec fn percent_decoded(s: Seq<char>) -> Seq<u8>
    decreases s.len(),
{
    if s.len() == 0 {
        seq![]
    } else if s.len() >= 3 && s[s.len() - 3] == '%' {
        percent_decoded(s.take(s.len() - 3)).push(
            (16 * hex_value(s[s.len() - 2]) + hex_value(s[s.len() - 1])) as u8,
        )
    } else {
        percent_decoded(s.drop_last()).push((s.last() as u32) as u8)
    }
}

proof fn lemma_percent_positions(b: Seq<u8>)
    ensures
        forall|i: int|
            0 <= i < percent_encoded(b).len() && #[trigger] percent_encoded(b)[i] == '%' ==> i + 2
                < percent_encoded(b).len(),
    decreases b.len(),
{
    if b.len() > 0 {
        let t = b.drop_last();
        lemma_percent_positions(t);
        let p = percent_encoded(t);
        let x = b.last();
        assert forall|i: int|
            0 <= i < percent_encoded(b).len() && #[trigger] percent_encoded(b)[i] == '%' implies i + 2
                < percent_encoded(b).len() by {
            if i < p.len() {
                assert(percent_encoded(b)[i] == p[i]);
            } else if unreserved(x) {
                assert(percent_encoded(b)[i] == (x as char));
            }
        }
    }
}

proof fn lemma_hex_digit_value(n: u8)
    requires
        n < 16,
    ensures
        hex_value(hex_digit(n)) == n,
{
}

/// Percent-encoded bytes decode back to themselves.
pub proof fn law_percent_decoding(b: Seq<u8>)
    ensures
        percent_decoded(percent_encoded(b)) == b,
    decreases b.len(),
{
    if b.len() > 0 {
        let t = b.drop_last();
        let x = b.last();
        law_percent_decoding(t);
        lemma_percent_positions(t);
        let p = percent_encoded(t);
        let s = percent_encoded(b);
        if unreserved(x) {
            assert(s == p.push(x as char));
            if s.len() >= 3 && s[s.len() - 3] == '%' {
                assert(s[s.len() - 3] == p[p.len() - 2]);
                assert(false);
            }
            assert(s.drop_last() =~= p);
            assert(((x as char) as u32) as u8 == x);
        } else {
            let tok = seq!['%', hex_digit(x / 16), hex_digit(x % 16)];
            assert(s == p + tok);
            assert(s.take(s.len() - 3) =~= p);
            lemma_hex_digit_value(x / 16);
            lemma_hex_digit_value(x % 16);
            assert((16 * (x / 16) + x % 16) as u8 == x);
        }
        assert(b =~= t.push(x));
    }
}

/// Encoding a branch name for a storage key is reversible, so two branch
/// names never share a key.
pub proof fn law_branch_encoding_injective(a: Seq<char>, b: Seq<char>)
    requires
        percent_encoded(encode_utf8(a)) == percent_encoded(encode_utf8(b)),
    ensures
        a == b,
{
    law_percent_decoding(encode_utf8(a));
    law_percent_decoding(encode_utf8(b));
    vstd::utf8::encode_utf8_decode_utf8(a);
    vstd::utf8::encode_utf8_decode_utf8(b);
}

/// Comparing a snapshot with itself changes nothing: every file's base
/// counts equal its head counts, lines and branches alike.
pub proof fn law_self_comparison_unchanged(
    files: Seq<FileDelta>,
    snapshot: CoverageSnapshot,
    changed: ChangedLines,
)
    requires
        comparison_files(files, Some(snapshot), snapshot, changed),
    ensures
        forall|k: int|
            0 <= k < files.len() ==> (#[trigger] files[k]).base == files[k].head
                && files[k].base_branches == files[k].head_branches && files[k].head is Some,
{
    assert forall|k: int| 0 <= k < files.len() implies (#[trigger] files[k]).base == files[k].head
        && files[k].base_branches == files[k].head_branches && files[k].head is Some by {
        assert(crate::compare::delta_correct(files[k], Some(snapshot), snapshot, changed));
    }
}

/// Without a base snapshot, every file is new: no delta has base counts.
pub proof fn law_no_base_all_new(files: Seq<FileDelta>, head: CoverageSnapshot, changed: ChangedLines)
    requires
        comparison_files(files, None, head, changed),
    ensures
        forall|k: int|
            0 <= k < files.len() ==> (#[trigger] files[k]).base is None && files[k].base_branches
                is None && files[k].head is Some,
{
    assert forall|k: int| 0 <= k < files.len() implies (#[trigger] files[k]).base is None
        && files[k].base_branches is None && files[k].head is Some by {
        assert(crate::compare::delta_correct(files[k], None, head, changed));
    }
}

/// Each commit's snapshot has a key of its own: two commits never share
/// one, so a snapshot is uploaded unconditionally.
pub proof fn law_snapshot_keys_distinct(keys: Keys, a: Seq<char>, b: Seq<char>)
    requires
        a != b,
    ensures
        keys.root() + "/commits/"@ + a + "/coverage.json.zst"@ != keys.root() + "/commits/"@ + b
            + "/coverage.json.zst"@,
{
    let p = keys.root() + "/commits/"@;
    let s = "/coverage.json.zst"@;
    let x = p + a + s;
    let y = p + b + s;
    if x == y {
        assert(x.len() == p.len() + a.len() + s.len());
        assert(y.len() == p.len() + b.len() + s.len());
        assert(a.len() == b.len());
        assert forall|i: int| 0 <= i < a.len() implies a[i] == b[i] by {
            assert(x[p.len() + i] == a[i]);
            assert(y[p.len() + i] == b[i]);
        }
        assert(a =~= b);
    }
}

/// Normalising a normalised file changes nothing: `FileCoverage::detailed`
/// applied to the path, language and records of a file it built gives the
/// same path, language, lines, branches and functions.
pub proof fn law_detailed_idempotent(
    f: FileCoverage,
    path: Seq<char>,
    language: crate::model::Language,
    line_hits: Seq<LineHit>,
    branches: Seq<BranchHit>,
    functions: Seq<FunctionHit>,
    g: FileCoverage,
)
    requires
        f.normalised_from(path, language, line_hits, branches, functions),
        g.normalised_from(f.path@, f.language, f.line_hits@, f.branches@, f.functions@),
    ensures
        g.path@ == f.path@,
        g.language == f.language,
        g.line_hits@ == f.line_hits@,
        branch_views(g.branches@) == branch_views(f.branches@),
        function_views(g.functions@) == function_views(f.functions@),
{
    lemma_lines_self_merged(f.line_hits@, line_hits);
    lemma_lines_merge_unique(g.line_hits@, f.line_hits@, f.line_hits@);
    lemma_branches_self_merged(f.branches@, branches);
    lemma_branches_merge_unique(g.branches@, f.branches@, f.branches@);
    lemma_functions_self_merged(f.functions@, functions);
    lemma_functions_merge_unique(g.functions@, f.functions@, f.functions@);
}

/// A file's executable lines are the distinct lines its records name, and
/// its covered lines those that some record reports as executed (at most
/// the executable ones).
pub proof fn law_line_counts(out: Seq<LineHit>, input: Seq<LineHit>)
    requires
        lines_merged(out, input),
    ensures
        out.len() == record_lines(input).len(),
        count_covered_lines(out) == hit_lines(input).len(),
        count_covered_lines(out) <= out.len(),
{
    let keys = line_keys(out);
    assert(keys.no_duplicates()) by {
        assert forall|i: int, j: int| 0 <= i < keys.len() && 0 <= j < keys.len() && i != j implies keys[i]
            != keys[j] by {
            if i < j {
                assert(out[i].line < out[j].line);
            } else {
                assert(out[j].line < out[i].line);
            }
        }
    }
    keys.unique_seq_to_set();
    assert(keys.to_set() =~= record_lines(input)) by {
        assert forall|l: u32| keys.to_set().contains(l) <==> record_lines(input).contains(l) by {
            if keys.contains(l) {
                let i = choose|i: int| 0 <= i < keys.len() && keys[i] == l;
                assert(has_line(input, out[i].line));
            }
            if has_line(input, l) {
                assert(has_line(out, l));
                let j = choose|j: int| 0 <= j < out.len() && out[j].line == l;
                assert(keys[j] == l);
            }
        }
    }
    lemma_covered_keys(out);
    let ck = covered_keys(out);
    assert(ck.no_duplicates()) by {
        assert forall|i: int, j: int| 0 <= i < ck.len() && 0 <= j < ck.len() && i != j implies ck[i]
            != ck[j] by {
            if i < j {
                assert(ck[i] < ck[j]);
            } else {
                assert(ck[j] < ck[i]);
            }
        }
    }
    ck.unique_seq_to_set();
    assert(ck.to_set() =~= hit_lines(input)) by {
        assert forall|l: u32| ck.to_set().contains(l) <==> hit_lines(input).contains(l) by {
            lemma_line_total_positive(input, l);
            if ck.contains(l) {
                let i = choose|i: int| 0 <= i < out.len() && out[i].line == l && out[i].hits > 0;
                assert(out[i].hits == clamp(line_total(input, l)));
            }
            if hit_lines(input).contains(l) {
                let k = choose|k: int| 0 <= k < input.len() && input[k].line == l && input[k].hits > 0;
                assert(has_line(input, l));
                assert(has_line(out, l));
                let j = choose|j: int| 0 <= j < out.len() && out[j].line == l;
                assert(out[j].hits == clamp(line_total(input, l)));
                assert(out[j].hits > 0);
            }
        }
    }
    assert(ck.to_set().subset_of(keys.to_set())) by {
        assert forall|l: u32| ck.to_set().contains(l) implies keys.to_set().contains(l) by {
            let i = choose|i: int| 0 <= i < out.len() && out[i].line == l && out[i].hits > 0;
            assert(keys[i] == l);
        }
    }
    vstd::set_lib::lemma_len_subset(ck.to_set(), keys.to_set());
}

/// A file's line counts in terms of the records it was built from: its
/// executable lines are the distinct lines named, its covered lines those
/// some record reports as executed.
pub proof fn law_file_line_counts(
    f: FileCoverage,
    path: Seq<char>,
    language: crate::model::Language,
    line_hits: Seq<LineHit>,
    branches: Seq<BranchHit>,
    functions: Seq<FunctionHit>,
)
    requires
        f.normalised_from(path, language, line_hits, branches, functions),
        f.line_hits@.len() <= u32::MAX,
    ensures
        f.executable_count() == record_lines(line_hits).len(),
        f.covered_count() == hit_lines(line_hits).len(),
        f.covered_count() <= f.executable_count(),
{
    law_line_counts(f.line_hits@, line_hits);
}

/// A file's branch counts in terms of the records it was built from: its
/// branches are the distinct keys named, its covered branches the keys some
/// record reports as taken (`-` and `0` records never count).
pub proof fn law_branch_counts(out: Seq<BranchHit>, input: Seq<BranchHit>)
    requires
        branches_merged(out, input),
    ensures
        out.len() == record_keys(input).len(),
        count_covered_branches(out) == taken_keys(input).len(),
        count_covered_branches(out) <= out.len(),
{
    let keys = branch_keys(out);
    assert(keys.no_duplicates()) by {
        assert forall|i: int, j: int| 0 <= i < keys.len() && 0 <= j < keys.len() && i != j implies keys[i]
            != keys[j] by {
            if i < j {
                lemma_lt_keys_differ(out[i], out[j]);
            } else {
                lemma_lt_keys_differ(out[j], out[i]);
            }
        }
    }
    keys.unique_seq_to_set();
    assert(keys.to_set() =~= record_keys(input)) by {
        assert forall|k: (u32, Seq<char>, Seq<char>)| keys.to_set().contains(k) <==> record_keys(input).contains(k) by {
            if keys.contains(k) {
                let i = choose|i: int| 0 <= i < keys.len() && keys[i] == k;
                assert(has_branch(input, out[i]));
                let m = choose|m: int| 0 <= m < input.len() && same_branch(input[m], out[i]);
                assert(branch_key(input[m]) == k);
            }
            if record_keys(input).contains(k) {
                let m = choose|m: int| 0 <= m < input.len() && branch_key(input[m]) == k;
                assert(has_branch(out, input[m]));
                let j = choose|j: int| 0 <= j < out.len() && same_branch(out[j], input[m]);
                assert(keys[j] == k);
            }
        }
    }
    lemma_covered_bkeys(out);
    let ck = covered_bkeys(out);
    ck.unique_seq_to_set();
    assert(ck.to_set() =~= taken_keys(input)) by {
        assert forall|k: (u32, Seq<char>, Seq<char>)| ck.to_set().contains(k) <==> taken_keys(input).contains(k) by {
            if ck.contains(k) {
                let i = choose|i: int| 0 <= i < out.len() && branch_key(out[i]) == k && branch_covered(out[i]);
                lemma_taken_covered(input, out[i]);
                let m = choose|m: int| 0 <= m < input.len() && same_branch(input[m], out[i])
                    && branch_covered(input[m]);
                assert(branch_key(input[m]) == k);
            }
            if taken_keys(input).contains(k) {
                let m = choose|m: int| 0 <= m < input.len() && branch_key(input[m]) == k && branch_covered(
                    input[m],
                );
                assert(has_branch(out, input[m]));
                let j = choose|j: int| 0 <= j < out.len() && same_branch(out[j], input[m]);
                lemma_taken_covered(input, out[j]);
                lemma_taken_same_key(input, out[j], input[m]);
                assert(same_branch(input[m], out[j]));
                assert(branch_covered(out[j]));
                assert(branch_key(out[j]) == k);
            }
        }
    }
    assert(ck.to_set().subset_of(keys.to_set())) by {
        assert forall|k: (u32, Seq<char>, Seq<char>)| ck.to_set().contains(k) implies keys.to_set().contains(k) by {
            let i = choose|i: int| 0 <= i < out.len() && branch_key(out[i]) == k && branch_covered(out[i]);
            assert(keys[i] == k);
        }
    }
    vstd::set_lib::lemma_len_subset(ck.to_set(), keys.to_set());
}

/// A file's branch counts in terms of the records it was built from.
pub proof fn law_file_branch_counts(
    f: FileCoverage,
    path: Seq<char>,
    language: crate::model::Language,
    line_hits: Seq<LineHit>,
    branches: Seq<BranchHit>,
    functions: Seq<FunctionHit>,
)
    requires
        f.normalised_from(path, language, line_hits, branches, functions),
        f.branches@.len() <= u32::MAX,
    ensures
        f.branch_count() == record_keys(branches).len(),
        f.covered_branch_count() == taken_keys(branches).len(),
        f.covered_branch_count() <= f.branch_count(),
{
    law_branch_counts(f.branches@, branches);
}

/// Everything a comparison holds is fixed by the snapshots and changed
/// lines it compares: any two results (such as `compare`'s and the one
/// inside `compare_with_source_trees`) list the same deltas in the same
/// order.
pub proof fn law_comparison_determined(
    f1: Seq<FileDelta>,
    f2: Seq<FileDelta>,
    base: Option<CoverageSnapshot>,
    head: CoverageSnapshot,
    ch: ChangedLines,
)
    requires
        comparison_files(f1, base, head, ch),
        comparison_files(f2, base, head, ch),
    ensures
        f1.len() == f2.len(),
        forall|i: int| 0 <= i < f1.len() ==> same_delta(#[trigger] f1[i], f2[i]),
{
    lemma_delta_paths_members(f1, f2, base, head, ch);
    lemma_delta_paths_members(f2, f1, base, head, ch);
    assert forall|p: Seq<char>| !(#[trigger] name_lt(p, p)) by {
        crate::text::lemma_seq_lt_irreflexive(p);
    }
    assert forall|p: Seq<char>, q: Seq<char>, r: Seq<char>|
        #[trigger] name_lt(p, q) && #[trigger] name_lt(q, r) implies name_lt(p, r) by {
        crate::text::lemma_seq_lt_transitive(p, q, r);
    }
    assert forall|p: Seq<char>, q: Seq<char>| #[trigger] name_lt(p, q) || p == q || name_lt(q, p) by {
        crate::text::lemma_seq_lt_trichotomy(p, q);
    }
    let k1 = delta_paths(f1);
    let k2 = delta_paths(f2);
    assert forall|i: int, j: int| 0 <= i < j < k1.len() implies name_lt(k1[i], k1[j]) by {}
    assert forall|i: int, j: int| 0 <= i < j < k2.len() implies name_lt(k2[i], k2[j]) by {}
    lemma_sorted_same_members(k1, k2, |p, q| name_lt(p, q));
    assert(k1.len() == k2.len());
    assert forall|i: int| 0 <= i < f1.len() implies same_delta(#[trigger] f1[i], f2[i]) by {
        assert(k1[i] == k2[i]);
        assert(k1[i] == f1[i].path@);
        assert(k2[i] == f2[i].path@);
        assert(delta_correct(f1[i], base, head, ch));
        assert(delta_correct(f2[i], base, head, ch));
        let p = f1[i].path@;
        match file_at(head.files@, p) {
            Some(hf) => {
                assert(crate::compare::head_delta(f1[i], hf, base_file_at(base, p), ch));
                assert(crate::compare::head_delta(f2[i], hf, base_file_at(base, p), ch));
                assert(crate::compare::branch_diff_of(f1[i].branch_diff, hf, ch));
                assert(crate::compare::branch_diff_of(f2[i].branch_diff, hf, ch));
                let a = f1[i].branch_diff.partial_lines@;
                let b = f2[i].branch_diff.partial_lines@;
                assert forall|l: u32| a.contains(l) <==> b.contains(l) by {
                    assert(a.contains(l) <==> crate::compare::is_partial_line(hf, ch, l));
                    assert(b.contains(l) <==> crate::compare::is_partial_line(hf, ch, l));
                }
                lemma_partial_lines_unique(a, b);
            },
            None => {
                let bf = base_file_at(base, p)->0;
                assert(crate::compare::removed_delta(f1[i], bf));
                assert(crate::compare::removed_delta(f2[i], bf));
                assert(f1[i].diff.uncovered_lines@ =~= f2[i].diff.uncovered_lines@);
                assert(f1[i].branch_diff.partial_lines@ =~= f2[i].branch_diff.partial_lines@);
            },
        }
    }
}

/// Summed over a comparison, the head counts are the head snapshot's
/// totals, whatever the order of its files: files present only in base
/// contribute nothing, and neither the base nor the changed lines matter.
pub proof fn law_head_totals(
    files: Seq<FileDelta>,
    base: Option<CoverageSnapshot>,
    head: CoverageSnapshot,
    ch: ChangedLines,
)
    requires
        crate::compare::distinct_paths(head.files@),
        comparison_files(files, base, head, ch),
    ensures
        counts_total(head_side(files)).0 == files_total(head.files@, Measure::CoveredLines),
        counts_total(head_side(files)).1 == files_total(head.files@, Measure::ExecutableLines),
{
    let hf = head.files@;
    let hd = head_deltas(files);
    lemma_head_deltas_sum(files);
    lemma_head_deltas_from(files);
    let k1 = delta_paths(hd);
    let k2 = hf.map_values(|f: FileCoverage| f.path@);
    assert forall|p: Seq<char>| k1.contains(p) <==> k2.contains(p) by {
        if k1.contains(p) {
            let k = choose|k: int| 0 <= k < k1.len() && k1[k] == p;
            assert(files.contains(hd[k]));
            let i = choose|i: int| 0 <= i < files.len() && files[i] == hd[k];
            assert(delta_correct(files[i], base, head, ch));
            assert(has_path(hf, p));
            let m = choose|m: int| 0 <= m < hf.len() && hf[m].path@ == p;
            assert(k2[m] == p);
        }
        if k2.contains(p) {
            let m = choose|m: int| 0 <= m < k2.len() && k2[m] == p;
            assert(has_path(hf, p));
            let i = choose|i: int| 0 <= i < files.len() && #[trigger] files[i].path@ == p;
            assert(delta_correct(files[i], base, head, ch));
            assert(files[i].head is Some);
            assert(hd.contains(files[i]));
            let k = choose|k: int| 0 <= k < hd.len() && hd[k] == files[i];
            assert(k1[k] == p);
        }
    }
    assert(k1.no_duplicates()) by {
        assert forall|a: int, b: int| 0 <= a < k1.len() && 0 <= b < k1.len() && a != b implies k1[a]
            != k1[b] by {
            crate::text::lemma_seq_lt_irreflexive(k1[a]);
            if a < b {
                assert(seq_lt(hd[a].path@, hd[b].path@));
            } else {
                assert(seq_lt(hd[b].path@, hd[a].path@));
            }
        }
    }
    assert(k2.no_duplicates()) by {
        assert forall|a: int, b: int| 0 <= a < k2.len() && 0 <= b < k2.len() && a != b implies k2[a]
            != k2[b] by {
            if a < b {
                assert(hf[a].path@ != hf[b].path@);
            } else {
                assert(hf[b].path@ != hf[a].path@);
            }
        }
    }
    k1.unique_seq_to_set();
    k2.unique_seq_to_set();
    assert(k1.to_set() =~= k2.to_set());
    assert(hd.len() == hf.len());
    assert forall|c: int| 0 <= c < hf.len() implies exists|n: int|
        0 <= n < hd.len() && hd[n].path@ == (#[trigger] hf[c]).path@ && hd[n].head == Some(
            crate::compare::counts_of(hf[c]),
        ) by {
        let p = hf[c].path@;
        assert(k2[c] == p);
        assert(k1.contains(p));
        let n = choose|n: int| 0 <= n < k1.len() && k1[n] == p;
        assert(files.contains(hd[n]));
        let j = choose|j: int| 0 <= j < files.len() && files[j] == hd[n];
        assert(delta_correct(files[j], base, head, ch));
        assert(has_path(hf, p));
        assert forall|e: int| 0 <= e < hf.len() && hf[e].path@ == p implies e == c by {
            if e < c {
                assert(hf[e].path@ != hf[c].path@);
            } else if e > c {
                assert(hf[c].path@ != hf[e].path@);
            }
        }
        assert(file_at(hf, p) == Some(hf[c]));
        assert(crate::compare::head_delta(files[j], hf[c], base_file_at(base, p), ch));
        assert(hd[n].path@ == p);
    }
    assert forall|a: int, b: int| 0 <= a < b < hd.len() implies hd[a].path@ != hd[b].path@ by {
        crate::text::lemma_seq_lt_irreflexive(hd[a].path@);
    }
    lemma_sum_matched(hd, hf);
}

/// A merged snapshot's executable-line total counts the distinct (path,
/// line) pairs named by the files it was built from: lines a path repeats,
/// in one file or across files given for the same path, count once.
pub proof fn law_snapshot_executable_lines(out: Seq<FileCoverage>, input: Seq<FileCoverage>)
    requires
        files_merged(out, input),
        forall|i: int| 0 <= i < out.len() ==> (#[trigger] out[i]).line_hits@.len() <= u32::MAX,
    ensures
        files_total(out, Measure::ExecutableLines) == line_pairs(input).len(),
{
    lemma_pair_seq(out);
    assert forall|i: int| 0 <= i < out.len() implies lines_sorted((#[trigger] out[i]).line_hits@) by {
        assert(lines_merged(out[i].line_hits@, path_lines(input, out[i].path@)));
    }
    lemma_pair_seq_distinct(out);
    let s = pair_seq(out);
    s.unique_seq_to_set();
    assert forall|pl: (Seq<char>, u32)| s.to_set().contains(pl) <==> line_pairs(input).contains(
        pl,
    ) by {
        let p = pl.0;
        let l = pl.1;
        lemma_path_lines_has(input, p, l);
        if s.contains(pl) {
            let (i, k) = choose|i: int, k: int|
                0 <= i < out.len() && 0 <= k < out[i].line_hits@.len() && out[i].path@ == pl.0
                    && (#[trigger] out[i].line_hits@[k]).line == pl.1;
            assert(has_line(out[i].line_hits@, out[i].line_hits@[k].line));
            assert(has_line(path_lines(input, p), l));
        }
        if line_pairs(input).contains(pl) {
            let (j, k) = choose|j: int, k: int|
                0 <= j < input.len() && 0 <= k < input[j].line_hits@.len() && input[j].path@
                    == pl.0 && (#[trigger] input[j].line_hits@[k]).line == pl.1;
            assert(has_path(out, input[j].path@));
            let i = choose|i: int| 0 <= i < out.len() && out[i].path@ == p;
            assert(has_line(path_lines(input, p), l));
            assert(has_line(out[i].line_hits@, l));
            let k2 = choose|k2: int| 0 <= k2 < out[i].line_hits@.len() && out[i].line_hits@[k2].line == l;
            assert(out[i].line_hits@[k2].line == l);
        }
    }
    assert(s.to_set() =~= line_pairs(input));
}

/// The files a tracefile reads to (`lcov_files` of what `lcov_read` kept, as
/// `parse_lcov` returns them) come in strictly increasing path order; each
/// path is repo-relative, one or more `/`-separated components none of
/// which is empty, `.` or `..`, so it neither starts with `/` nor holds a
/// `\`; each file's language is the one its path names; and each file is
/// its own normal form: `FileCoverage::detailed` given its path, language
/// and records builds the same file again.
pub proof fn law_tracefile_files(
    input: Seq<char>,
    root: Seq<char>,
    st: LcovRead,
    files: Seq<FileCoverage>,
)
    requires
        lcov_read(input, root) == Ok::<LcovRead, (nat, Seq<char>)>(st),
        lcov_files(files, st.kept),
    ensures
        paths_sorted(files),
        forall|i: int|
            0 <= i < files.len() ==> {
                let p = (#[trigger] files[i]).path@;
                &&& clean_relative_path(p)
                &&& p[0] != '/'
                &&& free_of(p, '\\')
                &&& files[i].language == language_of(p)
            },
        forall|i: int, g: FileCoverage|
            0 <= i < files.len() && #[trigger] g.normalised_from(
                files[i].path@,
                files[i].language,
                files[i].line_hits@,
                files[i].branches@,
                files[i].functions@,
            ) ==> {
                &&& g.path@ == files[i].path@
                &&& g.language == files[i].language
                &&& g.line_hits@ == files[i].line_hits@
                &&& branch_views(g.branches@) == branch_views(files[i].branches@)
                &&& function_views(g.functions@) == function_views(files[i].functions@)
            },
{
    let ls = crate::text::lines(input);
    lemma_walk_clean(ls, root);
    assert forall|i: int| 0 <= i < files.len() implies {
        let p = (#[trigger] files[i]).path@;
        &&& clean_relative_path(p)
        &&& p[0] != '/'
        &&& free_of(p, '\\')
        &&& files[i].language == language_of(p)
    } by {
        let p = files[i].path@;
        let k = choose|k: int| 0 <= k < st.kept.len() && (#[trigger] st.kept[k]).0 == p;
        assert(clean_relative_path(st.kept[k].0));
        let parts = choose|parts: Seq<Seq<char>>|
            #![trigger join_parts(parts)]
            parts.len() > 0 && (forall|j: int|
                0 <= j < parts.len() ==> clean_segment(#[trigger] parts[j])) && p == join_parts(
                parts,
            );
        lemma_join_facts(parts);
        assert(clean_segment(parts[0]));
    }
    assert forall|i: int, g: FileCoverage|
        0 <= i < files.len() && #[trigger] g.normalised_from(
            files[i].path@,
            files[i].language,
            files[i].line_hits@,
            files[i].branches@,
            files[i].functions@,
        ) implies {
        &&& g.path@ == files[i].path@
        &&& g.language == files[i].language
        &&& g.line_hits@ == files[i].line_hits@
        &&& branch_views(g.branches@) == branch_views(files[i].branches@)
        &&& function_views(g.functions@) == function_views(files[i].functions@)
    } by {
        let f = files[i];
        law_detailed_idempotent(f, f.path@, f.language, f.line_hits@, f.branches@, f.functions@, g);
    }
}

/// An analysis withholds its line delta exactly when the coverage scope
/// changed; otherwise its delta is the comparison's own. `analysis` is what
/// `ComparisonAnalysis::delta_pct` returns for `a`, `plain` what
/// `Comparison::delta_pct` returns for `a.comparison`.
pub proof fn law_analysis_line_delta(
    a: ComparisonAnalysis,
    analysis: Option<Delta>,
    plain: Option<Delta>,
)
    requires
        a.scope_change.appeared@.len() == 0 && a.scope_change.disappeared@.len() == 0
            ==> line_delta_of(analysis, a.comparison),
        !(a.scope_change.appeared@.len() == 0 && a.scope_change.disappeared@.len() == 0)
            ==> analysis is None,
        line_delta_of(plain, a.comparison),
    ensures
        !(a.scope_change.appeared@.len() == 0 && a.scope_change.disappeared@.len() == 0)
            ==> analysis is None,
        a.scope_change.appeared@.len() == 0 && a.scope_change.disappeared@.len() == 0
            ==> analysis == plain,
{
}

/// The same for the branch delta: withheld exactly on a scope change, else
/// the comparison's own branch delta.
pub proof fn law_analysis_branch_delta(
    a: ComparisonAnalysis,
    analysis: Option<Delta>,
    plain: Option<Delta>,
)
    requires
        a.scope_change.appeared@.len() == 0 && a.scope_change.disappeared@.len() == 0
            ==> branch_delta_of(analysis, a.comparison),
        !(a.scope_change.appeared@.len() == 0 && a.scope_change.disappeared@.len() == 0)
            ==> analysis is None,
        branch_delta_of(plain, a.comparison),
    ensures
        !(a.scope_change.appeared@.len() == 0 && a.scope_change.disappeared@.len() == 0)
            ==> analysis is None,
        a.scope_change.appeared@.len() == 0 && a.scope_change.disappeared@.len() == 0
            ==> analysis == plain,
{
}

// ---------------------------------------------------------------------------
// Delta cells carry the sign of head minus base.
// ---------------------------------------------------------------------------

/// Half to even rounds to a nearest integer: `round_half_even(n, d)` is
/// within half of `d` of `n` once multiplied by `d`.
pub proof fn law_round_half_even_nearest(n: int, d: int)
    requires
        n >= 0,
        d > 0,
    ensures
        round_half_even(n, d) >= 0,
        2 * (round_half_even(n, d) * d - n) <= d,
        2 * (n - round_half_even(n, d) * d) <= d,
        2 * (round_half_even(n, d) * d - n) == d || 2 * (n - round_half_even(n, d) * d) == d
            ==> round_half_even(n, d) % 2 == 0,
{
    let q = n / d;
    let r = n % d;
    vstd::arithmetic::div_mod::lemma_fundamental_div_mod(n, d);
    assert(0 <= r < d);
    assert(q >= 0) by (nonlinear_arith)
        requires
            n >= 0,
            d > 0,
            n == d * q + r,
            r < d,
    ;
    assert(q * d == d * q) by (nonlinear_arith);
    assert((q + 1) * d == q * d + d) by (nonlinear_arith);
}

/// The Markdown delta cell of `hc/ht` (head) against `bc/bt` (base): green
/// with `+` when head is at least half a hundredth of a point above base,
/// red with `-` when at least that much below, flat between; the magnitude
/// is the difference in hundredths of a point, rounded half to even. A
/// green cell means head above base, a red one head below.
pub proof fn law_markdown_delta_sign(hc: nat, ht: nat, bc: nat, bt: nat, base_available: bool)
    requires
        ht > 0,
        bt > 0,
    ensures
        ({
            let diff = hc * bt - bc * ht;
            let den = ht * bt;
            let mag = round_half_even(10000 * (if diff < 0 { -diff } else { diff }), den as int);
            let text = md_delta_text(Some((hc, ht, bc, bt)), base_available);
            &&& 20000 * diff >= den ==> text == "🟢 +"@ + fixed2(mag as nat) + "%p"@
            &&& 20000 * diff <= -den ==> text == "🔴 -"@ + fixed2(mag as nat) + "%p"@
            &&& -den < 20000 * diff < den ==> text == "➖ ±0.00%p"@
            &&& text.len() >= 3 && text[0] == '🟢' && text[2] == '+' ==> hc * bt > bc * ht
            &&& text.len() >= 3 && text[0] == '🔴' && text[2] == '-' ==> hc * bt < bc * ht
        }),
        md_delta_text(None, true) == "n/a"@,
        md_delta_text(None, false) == "n/a (no baseline)"@,
{
    reveal_strlit("🟢 +");
    reveal_strlit("🔴 -");
    reveal_strlit("➖ ±0.00%p");
    assert(ht * bt > 0) by (nonlinear_arith)
        requires
            ht > 0,
            bt > 0,
    ;
}

/// The HTML delta cell: the `up` span with `+` when head is more than half
/// a hundredth of a point above base, the `down` span with `-` when more
/// than that below, `flat` between; the magnitude is the difference in
/// hundredths of a point, rounded half to even. An `up` cell means head
/// above base, a `down` one head below.
pub proof fn law_html_delta_sign(hc: nat, ht: nat, bc: nat, bt: nat)
    requires
        ht > 0,
        bt > 0,
    ensures
        ({
            let diff = hc * bt - bc * ht;
            let den = ht * bt;
            let mag = round_half_even(10000 * (if diff < 0 { -diff } else { diff }), den as int);
            let text = html_delta_text(Some((hc, ht, bc, bt)));
            let up = "<span class=\"up\">+"@;
            let down = "<span class=\"down\">-"@;
            &&& 20000 * diff > den ==> text == up + fixed2(mag as nat) + "%p</span>"@
            &&& 20000 * diff < -den ==> text == down + fixed2(mag as nat) + "%p</span>"@
            &&& -den <= 20000 * diff <= den ==> text == "<span class=\"flat\">±0.00%p</span>"@
            &&& text.len() >= up.len() && text.take(up.len() as int) == up ==> hc * bt > bc * ht
            &&& text.len() >= down.len() && text.take(down.len() as int) == down ==> hc * bt
                < bc * ht
        }),
{
    reveal_strlit("<span class=\"up\">+");
    reveal_strlit("<span class=\"down\">-");
    reveal_strlit("<span class=\"flat\">±0.00%p</span>");
    assert(ht * bt > 0) by (nonlinear_arith)
        requires
            ht > 0,
            bt > 0,
    ;
    let diff = hc * bt - bc * ht;
    let den = ht * bt;
    let up = "<span class=\"up\">+"@;
    let down = "<span class=\"down\">-"@;
    let text = html_delta_text(Some((hc, ht, bc, bt)));
    if 20000 * diff > den {
        assert(text.take(down.len() as int)[13] != down[13]);
    } else if 20000 * diff < -den {
        assert(text.take(up.len() as int)[13] != up[13]);
    } else {
        assert(text.take(up.len() as int)[13] != up[13]);
        assert(text.take(down.len() as int)[13] != down[13]);
    }
}

// ---------------------------------------------------------------------------
// The comment lists every file with uncovered changed lines.
// ---------------------------------------------------------------------------

/// The files with uncovered changed lines of `a + b` are those of `a`, then
/// those of `b`.
pub proof fn law_uncovered_files_concat(a: Seq<FileDelta>, b: Seq<FileDelta>)
    ensures
        uncovered_files(a + b) == uncovered_files(a) + uncovered_files(b),
    decreases b.len(),
{
    if b.len() == 0 {
        assert(a + b =~= a);
        assert(uncovered_files(a) + uncovered_files(b) =~= uncovered_files(a));
    } else {
        law_uncovered_files_concat(a, b.drop_last());
        assert((a + b).drop_last() =~= a + b.drop_last());
        assert((a + b).last() == b.last());
        if b.last().diff.uncovered_lines@.len() > 0 {
            assert(uncovered_files(a) + uncovered_files(b.drop_last()).push(b.last())
                =~= (uncovered_files(a) + uncovered_files(b.drop_last())).push(b.last()));
        }
    }
}

/// A single file is listed exactly when it has uncovered changed lines.
pub proof fn law_uncovered_files_single(f: FileDelta)
    ensures
        f.diff.uncovered_lines@.len() > 0 ==> uncovered_files(seq![f]) == seq![f],
        f.diff.uncovered_lines@.len() == 0 ==> uncovered_files(seq![f]) == Seq::<FileDelta>::empty(),
{
    assert(seq![f].drop_last() =~= Seq::<FileDelta>::empty());
    assert(seq![f].last() == f);
    assert(uncovered_files(Seq::<FileDelta>::empty()) == Seq::<FileDelta>::empty());
    assert(Seq::<FileDelta>::empty().push(f) =~= seq![f]);
}

/// The entries of `a + b` are the entries of `a` followed by those of `b`;
/// one file's entries are its own entry.
pub proof fn law_uncovered_entries_concat(a: Seq<FileDelta>, b: Seq<FileDelta>)
    ensures
        uncovered_entries(a + b) == uncovered_entries(a) + uncovered_entries(b),
        b.len() == 1 ==> uncovered_entries(b) == uncovered_entry(b[0]),
    decreases b.len(),
{
    if b.len() == 0 {
        assert(a + b =~= a);
        assert(uncovered_entries(a) + uncovered_entries(b) =~= uncovered_entries(a));
    } else {
        law_uncovered_entries_concat(a, b.drop_last());
        assert((a + b).drop_last() =~= a + b.drop_last());
        assert((a + b).last() == b.last());
        assert(uncovered_entries(a) + (uncovered_entries(b.drop_last()) + uncovered_entry(b.last()))
            =~= (uncovered_entries(a) + uncovered_entries(b.drop_last())) + uncovered_entry(
            b.last(),
        ));
        if b.len() == 1 {
            assert(b.drop_last().len() == 0);
            assert(uncovered_entries(b) =~= uncovered_entry(b[0]));
        }
    }
}

/// The count in the section's heading adds up the uncovered lines of
/// every file: over `a + b` it is the count over `a` plus that over `b`,
/// and a single file contributes its own uncovered lines.
pub proof fn law_uncovered_total_concat(a: Seq<FileDelta>, b: Seq<FileDelta>)
    ensures
        uncovered_total(a + b) == uncovered_total(a) + uncovered_total(b),
        b.len() == 1 ==> uncovered_total(b) == b[0].diff.uncovered_lines@.len(),
    decreases b.len(),
{
    if b.len() == 0 {
        assert(a + b =~= a);
    } else {
        law_uncovered_total_concat(a, b.drop_last());
        assert((a + b).drop_last() =~= a + b.drop_last());
        assert((a + b).last() == b.last());
        if b.len() == 1 {
            assert(b.drop_last().len() == 0);
        }
    }
}

/// Every file of a comparison with uncovered changed lines has its own
/// entry in the comment's uncovered-lines section: the section is some
/// text, that file's entry, then more text.
pub proof fn law_uncovered_section_lists_each_file(comp: Comparison, k: int) -> (r: (
    Seq<char>,
    Seq<char>,
))
    requires
        0 <= k < comp.files@.len(),
        comp.files@[k].diff.uncovered_lines@.len() > 0,
    ensures
        uncovered_section(comp) == r.0 + uncovered_entry(comp.files@[k]) + r.1,
{
    let files = comp.files@;
    let f = files[k];
    let a = files.take(k);
    let b = files.skip(k + 1);
    assert(files =~= a + seq![f] + b);
    law_uncovered_files_concat(a + seq![f], b);
    law_uncovered_files_concat(a, seq![f]);
    law_uncovered_files_single(f);
    let ua = uncovered_files(a);
    let ub = uncovered_files(b);
    let uf = uncovered_files(files);
    assert(uf == ua + seq![f] + ub);
    law_uncovered_entries_concat(ua + seq![f], ub);
    law_uncovered_entries_concat(ua, seq![f]);
    assert(uf.len() > 0);
    let head = "\n"@ + "<details><summary>Uncovered changed lines ("@ + crate::text::dec(
        crate::report_github::uncovered_total(uf) as nat,
    ) + ")</summary>\n"@ + "\n"@;
    let pre = head + uncovered_entries(ua);
    let post = uncovered_entries(ub) + "</details>\n"@;
    assert(uncovered_section(comp) =~= pre + uncovered_entry(f) + post);
    (pre, post)
}

// ---------------------------------------------------------------------------
// Diff coverage: a changed line is covered exactly when it ran.
// ---------------------------------------------------------------------------

/// The records of lines that `ch` marks as changed in `path`.
pub open spec fn touched(ch: ChangedLines, path: Seq<char>) -> spec_fn(LineHit) -> bool {
    |lh: LineHit| ch.contains(path, lh.line)
}

/// The changed records that ran at least once.
pub open spec fn touched_and_run(ch: ChangedLines, path: Seq<char>) -> spec_fn(LineHit) -> bool {
    |lh: LineHit| ch.contains(path, lh.line) && lh.hits > 0
}

/// The changed records that never ran.
pub open spec fn touched_not_run(ch: ChangedLines, path: Seq<char>) -> spec_fn(LineHit) -> bool {
    |lh: LineHit| ch.contains(path, lh.line) && lh.hits == 0
}

proof fn lemma_changed_filters(s: Seq<LineHit>, ch: ChangedLines, path: Seq<char>)
    ensures
        changed_line_count(s, ch, path) == s.filter(touched(ch, path)).len(),
        changed_covered_count(s, ch, path) == s.filter(touched_and_run(ch, path)).len(),
        changed_uncovered(s, ch, path) == s.filter(touched_not_run(ch, path)).map_values(
            |lh: LineHit| lh.line,
        ),
    decreases s.len(),
{
    reveal(Seq::filter);
    if s.len() > 0 {
        lemma_changed_filters(s.drop_last(), ch, path);
        let u = s.drop_last().filter(touched_not_run(ch, path));
        if touched_not_run(ch, path)(s.last()) {
            assert(u.push(s.last()).map_values(|lh: LineHit| lh.line) =~= u.map_values(
                |lh: LineHit| lh.line,
            ).push(s.last().line));
        }
    } else {
        assert(s.filter(touched_not_run(ch, path)).map_values(|lh: LineHit| lh.line) =~= seq![]);
    }
}

proof fn lemma_uncovered_from(s: Seq<LineHit>, ch: ChangedLines, path: Seq<char>)
    ensures
        forall|j: int|
            #![trigger changed_uncovered(s, ch, path)[j]]
            0 <= j < changed_uncovered(s, ch, path).len() ==> exists|i: int|
                0 <= i < s.len() && (#[trigger] s[i]).line == changed_uncovered(s, ch, path)[j]
                    && s[i].hits == 0 && ch.contains(path, s[i].line),
    decreases s.len(),
{
    if s.len() > 0 {
        let t = s.drop_last();
        lemma_uncovered_from(t, ch, path);
        let cu = changed_uncovered(s, ch, path);
        let ct = changed_uncovered(t, ch, path);
        assert forall|j: int| #![trigger cu[j]] 0 <= j < cu.len() implies exists|i: int|
            0 <= i < s.len() && (#[trigger] s[i]).line == cu[j] && s[i].hits == 0 && ch.contains(
                path,
                s[i].line,
            ) by {
            if j < ct.len() {
                assert(cu[j] == ct[j]);
                let i = choose|i: int|
                    0 <= i < t.len() && (#[trigger] t[i]).line == ct[j] && t[i].hits == 0
                        && ch.contains(path, t[i].line);
                assert(s[i] == t[i]);
            } else {
                assert(s[s.len() - 1] == s.last());
            }
        }
    }
}

/// A file's diff coverage counts its changed records, covers those that
/// ran at least once, and lists as uncovered, in order, the lines of those
/// that never ran; so every uncovered line was changed and has no hits.
pub proof fn law_diff_coverage_counts(d: DiffCoverage, f: FileCoverage, ch: ChangedLines)
    requires
        diff_coverage_of(d, f, ch),
    ensures
        d.relevant == f.line_hits@.filter(touched(ch, f.path@)).len(),
        d.covered == f.line_hits@.filter(touched_and_run(ch, f.path@)).len(),
        d.uncovered_lines@ == f.line_hits@.filter(touched_not_run(ch, f.path@)).map_values(
            |lh: LineHit| lh.line,
        ),
        forall|j: int|
            #![trigger d.uncovered_lines@[j]]
            0 <= j < d.uncovered_lines@.len() ==> exists|i: int|
                0 <= i < f.line_hits@.len() && (#[trigger] f.line_hits@[i]).line
                    == d.uncovered_lines@[j] && f.line_hits@[i].hits == 0 && ch.contains(
                    f.path@,
                    f.line_hits@[i].line,
                ),
{
    lemma_changed_filters(f.line_hits@, ch, f.path@);
    lemma_uncovered_from(f.line_hits@, ch, f.path@);
}

// ---------------------------------------------------------------------------
// Diff headers.
// ---------------------------------------------------------------------------

/// The file a `+++ ` header names is its target (the text up to the first
/// tab, trimmed) with only a leading `b/` removed: a target that does not
/// start with `b/` (as with `git diff --no-prefix`) is the path whole, and
/// `/dev/null` names no file.
pub proof fn law_diff_header_target(rest: Seq<char>)
    ensures
        ({
            let first = match split_once(rest, '\t') {
                Some((a, _)) => a,
                None => rest,
            };
            let t = trim(first);
            let dev_null = seq!['/', 'd', 'e', 'v', '/', 'n', 'u', 'l', 'l'];
            let b_prefixed = t.len() >= 2 && t[0] == 'b' && t[1] == '/';
            &&& t == dev_null ==> header_target(rest) is None
            &&& t != dev_null && b_prefixed ==> header_target(rest) == Some(
                t.subrange(2, t.len() as int),
            )
            &&& t != dev_null && !b_prefixed ==> header_target(rest) == Some(t)
        }),
{
    let first = match split_once(rest, '\t') {
        Some((a, _)) => a,
        None => rest,
    };
    let t = trim(first);
    if t.len() >= 2 && t[0] == 'b' && t[1] == '/' {
        assert(t.take(2) =~= seq!['b', '/']);
        assert(t.skip(2) =~= t.subrange(2, t.len() as int));
    } else if t.len() >= 2 {
        assert(t.take(2) != seq!['b', '/']) by {
            if t.take(2) == seq!['b', '/'] {
                assert(t.take(2)[0] == t[0]);
                assert(t.take(2)[1] == t[1]);
            }
        }
    }
}

/// A `+++ ` line switches the walk to the file its header names, outside
/// any hunk, and marks no line.
pub proof fn law_diff_header_line(st: DiffState, rest: Seq<char>)
    ensures
        ({
            let next = diff_step(st, seq!['+', '+', '+', ' '] + rest);
            &&& next.0 == header_target(rest)
            &&& next.1 is None
            &&& next.2 == st.2
        }),
{
    let line = seq!['+', '+', '+', ' '] + rest;
    assert(line.take(4) =~= seq!['+', '+', '+', ' ']);
    assert(line.skip(4) =~= rest);
}

} // verus!
