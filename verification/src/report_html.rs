//! The HTML coverage report: an index page with the totals and a collapsible
//! tree of directories and files, and one page per file with its source
//! lines marked covered, uncovered and changed.
use vstd::prelude::*;

use crate::compare::{
    ChangedLines, ComparisonAnalysis, CoverageScopeChangeKind, CoverageScopeEntry, FileDelta,
    counts_total, diff_total, head_side, base_side,
};
use crate::dirtree::{
    Agg, DirAgg, agg_fits, all_agg, child_names, dir_agg, direct_files, max_parts, parts_views,
    path_parts, vec_views,
};
use crate::github_storage::html_escaped;
use crate::model::{CoverageSnapshot, FileCoverage, LineHit};
use crate::pct::{delta_scaled, fixed2, pct_text, round_half_even};
use crate::render::{escaped_path, omitted_count, scope_of, shown_entries};
use crate::report_github::totals_fit;
use crate::report_markdown::{agg_delta, file_delta};
use crate::text::{byte_boundary, byte_prefix};
use crate::text::{chars_of, dec, join, lines, push_chars, push_dec, push_str};

verus! {

/// The style sheet shared by the pages.
pub const STYLE: &'static str = r#"
:root { color-scheme: light; }
* { box-sizing: border-box; }
body { font-family: -apple-system, BlinkMacSystemFont, "Segoe UI", sans-serif;
       margin: 0; background: #f6f8fa; color: #1f2328; }
header { background: #24292f; color: #fff; padding: 16px 24px; }
header h1 { margin: 0 0 4px; font-size: 18px; }
header .meta { font-size: 12px; color: #d0d7de; }
main { max-width: 1100px; margin: 24px auto; padding: 0 16px; }
.cards { display: flex; gap: 12px; margin-bottom: 20px; flex-wrap: wrap; }
.card { background: #fff; border: 1px solid #d0d7de; border-radius: 8px;
        padding: 12px 20px; min-width: 160px; }
.card .label { font-size: 12px; color: #57606a; }
.card .value { font-size: 22px; font-weight: 600; }
.card .sub { font-size: 12px; color: #57606a; }
.up { color: #1a7f37; } .down { color: #cf222e; } .flat { color: #57606a; }
table { border-collapse: collapse; width: 100%; background: #fff;
        border: 1px solid #d0d7de; border-radius: 8px; overflow: hidden; }
th, td { padding: 8px 12px; text-align: right; font-size: 13px;
         border-bottom: 1px solid #eaeef2; }
th { background: #f6f8fa; color: #57606a; font-weight: 600; }
td.path, th.path { text-align: left; font-family: ui-monospace, monospace; }
tr:hover td { background: #f6f8fa; }
a { color: #0969da; text-decoration: none; }
a:hover { text-decoration: underline; }
.removed { color: #8c959f; }
.legend { font-size: 12px; color: #57606a; margin: 12px 0; }
.legend span { padding: 2px 8px; border-radius: 4px; margin-right: 8px; }
table.code { font-family: ui-monospace, SFMono-Regular, Menlo, monospace; }
table.code td { padding: 0 8px; font-size: 12.5px; line-height: 1.7;
                border-bottom: none; white-space: pre; text-align: left; }
td.ln { text-align: right !important; color: #8c959f; width: 1%;
        user-select: none; border-right: 1px solid #eaeef2; }
td.ln a { color: inherit; }
td.hits { text-align: right !important; color: #57606a; width: 1%;
          border-right: 1px solid #eaeef2; }
td.chg { width: 1%; color: #0969da; font-weight: 700; user-select: none; }
tr.cov { background: #e6ffec; }
tr.miss { background: #ffebe9; }
tr.cov.changed { background: #abf2bc; }
tr.miss.changed { background: #ffb3ad; }
tr.changed td.chg::before { content: "±"; }
tr:target td { outline: 2px solid #0969da; }
.uncovered-links { margin: 8px 0 16px; font-size: 13px; }
.uncovered-links a { margin-right: 6px; }
.notice { background: #fff8c5; border: 1px solid rgba(212,167,44,.4); border-radius: 8px;
          padding: 10px 14px; font-size: 13px; color: #4d2d00; margin-bottom: 12px; }
.tree { background: #fff; border: 1px solid #d0d7de; border-radius: 8px;
        overflow: hidden; font-size: 13px; }
.tree .row { display: grid; align-items: center;
             grid-template-columns: minmax(220px,1fr) 80px 80px 150px 110px 140px;
             border-bottom: 1px solid #eaeef2; }
.tree .cell { padding: 6px 12px; text-align: right; white-space: nowrap;
              overflow: hidden; text-overflow: ellipsis; }
.tree .cell.name { text-align: left; font-family: ui-monospace, SFMono-Regular, Menlo, monospace; }
.tree .row.header { background: #f6f8fa; font-weight: 600; color: #57606a; }
.tree .row.header .cell { padding: 8px 12px; }
.tree summary.row { cursor: pointer; list-style: none; background: #f6f8fa; font-weight: 600; }
.tree summary.row::-webkit-details-marker { display: none; }
.tree summary .name::before { content: "▸ "; color: #57606a; }
.tree details[open] > summary .name::before { content: "▾ "; }
.tree summary.row:hover, .tree .row.file:hover { background: #eaeef2; }
"#;

fn push_escaped(out: &mut Vec<char>, s: &str)
    ensures
        final(out)@ == old(out)@ + html_escaped(s@),
{
    let cs = chars_of(s);
    crate::github_storage::push_html_escaped(out, &cs);
}

// ---------------------------------------------------------------------------
// Cells.
// ---------------------------------------------------------------------------

/// A delta cell: `+x.xx%p` above half a hundredth, `-x.xx%p` below minus
/// half a hundredth, `±0.00%p` between, `n/a` without both sides.
pub open spec fn html_delta_text(d: Option<(nat, nat, nat, nat)>) -> Seq<char> {
    match d {
        Some((hc, ht, bc, bt)) => {
            let n = delta_scaled(hc, ht, bc, bt);
            let den = ht * bt;
            let h = round_half_even(
                if n < 0 {
                    -n
                } else {
                    n
                },
                den as int,
            );
            if 2 * n > den {
                "<span class=\"up\">+"@ + fixed2(h as nat) + "%p</span>"@
            } else if 2 * n < -den {
                "<span class=\"down\">-"@ + fixed2(h as nat) + "%p</span>"@
            } else {
                "<span class=\"flat\">±0.00%p</span>"@
            }
        },
        None => "<span class=\"flat\">n/a</span>"@,
    }
}

fn push_html_delta(out: &mut Vec<char>, d: Option<(u64, u64, u64, u64)>)
    requires
        d matches Some((hc, ht, bc, bt)) ==> ht > 0 && bt > 0,
    ensures
        final(out)@ == old(out)@ + html_delta_text(
            match d {
                Some((hc, ht, bc, bt)) => Some((hc as nat, ht as nat, bc as nat, bt as nat)),
                None => None,
            },
        ),
{
    match d {
        Some((hc, ht, bc, bt)) => {
            let x = crate::pct::percent_delta(hc, ht, bc, bt);
            if x.exceeds_rise {
                push_str(out, "<span class=\"up\">+");
                crate::pct::push_fixed2(out, x.hundredths);
                push_str(out, "%p</span>");
            } else if x.exceeds_fall {
                push_str(out, "<span class=\"down\">-");
                crate::pct::push_fixed2(out, x.hundredths);
                push_str(out, "%p</span>");
            } else {
                push_str(out, "<span class=\"flat\">±0.00%p</span>");
            }
        },
        None => push_str(out, "<span class=\"flat\">n/a</span>"),
    }
}

/// `covered/relevant (x.xx%)`, or `–` without relevant lines.
pub open spec fn html_diff_text(covered: nat, relevant: nat) -> Seq<char> {
    if relevant > 0 {
        dec(covered) + "/"@ + dec(relevant) + " ("@ + pct_text(covered, relevant) + ")"@
    } else {
        "–"@
    }
}

fn push_html_diff(out: &mut Vec<char>, covered: u32, relevant: u32)
    ensures
        final(out)@ == old(out)@ + html_diff_text(covered as nat, relevant as nat),
{
    if relevant > 0 {
        push_dec(out, covered as u64);
        push_str(out, "/");
        push_dec(out, relevant as u64);
        push_str(out, " (");
        crate::pct::push_pct(out, covered as u64, relevant as u64);
        push_str(out, ")");
    } else {
        push_str(out, "–");
    }
    assert(final(out)@ =~= old(out)@ + html_diff_text(covered as nat, relevant as nat));
}

// ---------------------------------------------------------------------------
// File pages.
// ---------------------------------------------------------------------------

/// The hits recorded for `line`; the last record wins.
pub open spec fn hit_at(s: Seq<LineHit>, line: u32) -> Option<u64>
    decreases s.len(),
{
    if s.len() == 0 {
        None
    } else if s.last().line == line {
        Some(s.last().hits)
    } else {
        hit_at(s.drop_last(), line)
    }
}

fn hit_at_exec(s: &Vec<LineHit>, line: u32) -> (r: Option<u64>)
    ensures
        r == hit_at(s@, line),
{
    let mut i: usize = s.len();
    assert(s@.take(i as int) =~= s@);
    while i > 0
        invariant
            i <= s@.len(),
            hit_at(s@, line) == hit_at(s@.take(i as int), line),
        decreases i,
    {
        assert(s@.take(i as int).drop_last() =~= s@.take(i - 1));
        if s[i - 1].line == line {
            return Some(s[i - 1].hits);
        }
        i -= 1;
    }
    None
}

/// The row's classes: `cov` or `miss` by its hits, `changed` when changed.
pub open spec fn class_attr_text(hits: Option<u64>, changed: bool) -> Seq<char> {
    match hits {
        Some(h) => " class=\""@ + (if h > 0 {
            "cov"@
        } else {
            "miss"@
        }) + (if changed {
            " changed"@
        } else {
            seq![]
        }) + "\""@,
        None => if changed {
            " class=\"changed\""@
        } else {
            seq![]
        },
    }
}

/// One source line of a file page.
pub open spec fn code_row_text(line: u32, hits: Option<u64>, changed: bool, source: Seq<char>) -> Seq<char> {
    let hits_txt = match hits {
        Some(h) => dec(h as nat),
        None => seq![],
    };
    "<tr id=\"L"@ + dec(line as nat) + "\""@ + class_attr_text(hits, changed)
        + "><td class=\"ln\"><a href=\"#L"@ + dec(line as nat) + "\">"@ + dec(line as nat)
        + "</a></td><td class=\"hits\">"@ + hits_txt + "</td><td class=\"chg\"></td><td>"@
        + html_escaped(source) + "</td></tr>\n"@
}

fn push_class_attr(out: &mut Vec<char>, hits: Option<u64>, changed: bool)
    ensures
        final(out)@ == old(out)@ + class_attr_text(hits, changed),
{
    match hits {
        Some(h) => {
            if h > 0 {
                push_str(out, " class=\"cov");
            } else {
                push_str(out, " class=\"miss");
            }
            if changed {
                push_str(out, " changed");
            }
            push_str(out, "\"");
        },
        None => {
            if changed {
                push_str(out, " class=\"changed\"");
            }
        },
    }
    proof {
        reveal_strlit(" class=\"cov");
        reveal_strlit(" class=\"miss");
        reveal_strlit(" class=\"");
        reveal_strlit("cov");
        reveal_strlit("miss");
    }
    assert(final(out)@ =~= old(out)@ + class_attr_text(hits, changed));
}

fn push_code_row(out: &mut Vec<char>, line: u32, hits: Option<u64>, changed: bool, source: &[char])
    ensures
        final(out)@ == old(out)@ + code_row_text(line, hits, changed, source@),
{
    push_str(out, "<tr id=\"L");
    push_dec(out, line as u64);
    push_str(out, "\"");
    push_class_attr(out, hits, changed);
    push_str(out, "><td class=\"ln\"><a href=\"#L");
    push_dec(out, line as u64);
    push_str(out, "\">");
    push_dec(out, line as u64);
    push_str(out, "</a></td><td class=\"hits\">");
    match hits {
        Some(h) => push_dec(out, h),
        None => {},
    }
    push_str(out, "</td><td class=\"chg\"></td><td>");
    crate::github_storage::push_html_escaped(out, source);
    push_str(out, "</td></tr>\n");
    assert(final(out)@ =~= old(out)@ + code_row_text(line, hits, changed, source@));
}

/// `x.xx%`; without executable lines `empty file` when the source is empty
/// and `no executable lines` otherwise.
pub open spec fn coverage_cell(covered: nat, executable: nat, source: Option<Seq<char>>) -> Seq<char> {
    if executable > 0 {
        pct_text(covered, executable)
    } else if source matches Some(t) && t.len() == 0 {
        "empty file"@
    } else {
        "no executable lines"@
    }
}

/// The source lines, numbered from one, with their hits and change marks.
pub open spec fn source_rows(
    src: Seq<Seq<char>>,
    hits: Seq<LineHit>,
    changed: ChangedLines,
    path: Seq<char>,
) -> Seq<char>
    decreases src.len(),
{
    if src.len() == 0 {
        seq![]
    } else {
        let line = (src.len() as int) as u32;
        source_rows(src.drop_last(), hits, changed, path) + code_row_text(
            line,
            hit_at(hits, line),
            changed.contains(path, line),
            src.last(),
        )
    }
}

/// The executable lines alone, when the source cannot be read.
pub open spec fn hit_rows(s: Seq<LineHit>, changed: ChangedLines, path: Seq<char>) -> Seq<char>
    decreases s.len(),
{
    if s.len() == 0 {
        seq![]
    } else {
        hit_rows(s.drop_last(), changed, path) + code_row_text(
            s.last().line,
            Some(s.last().hits),
            changed.contains(path, s.last().line),
            "(source not available)"@,
        )
    }
}

pub open spec fn page_body(f: FileCoverage, changed: ChangedLines, source: Option<Seq<char>>) -> Seq<char> {
    match source {
        Some(text) => if text.len() == 0 {
            "<div class=\"notice\">This file is empty — there is nothing to measure.</div>"@
        } else {
            (if f.executable_count() == 0 {
                "<div class=\"notice\">No executable lines — this file is not measurable (comments/blank lines only).</div>"@
            } else {
                seq![]
            }) + "<table class=\"code\"><tbody>\n"@ + source_rows(
                lines(text),
                f.line_hits@,
                changed,
                f.path@,
            ) + "</tbody></table>"@
        },
        None => "<div class=\"notice\">Source file not found in checkout — showing executable lines only.</div><table class=\"code\"><tbody>\n"@
            + hit_rows(f.line_hits@, changed, f.path@) + "</tbody></table>"@,
    }
}

pub open spec fn line_anchor(l: u32) -> Seq<char> {
    "<a href=\"#L"@ + dec(l as nat) + "\">L"@ + dec(l as nat) + "</a>"@
}

pub open spec fn uncovered_links_text(lines: Seq<u32>) -> Seq<char> {
    if lines.len() == 0 {
        seq![]
    } else {
        "<div class=\"uncovered-links\">Uncovered changed lines: "@ + join(
            Seq::new(lines.len(), |i: int| line_anchor(lines[i])),
            " "@,
        ) + "</div>"@
    }
}

/// A file's page.
pub open spec fn file_page_text(
    f: FileCoverage,
    delta: FileDelta,
    changed: ChangedLines,
    source: Option<Seq<char>>,
) -> Seq<char> {
    "<!DOCTYPE html>\n<html lang=\"en\"><head><meta charset=\"utf-8\">\n<title>"@ + html_escaped(
        f.path@,
    ) + " - Badgers Coverage</title><style>"@ + STYLE@ + "</style></head>\n<body>\n<header><h1>"@
        + html_escaped(f.path@)
        + "</h1>\n<div class=\"meta\"><a href=\"index.html\" style=\"color:#d0d7de\">← index</a> ·\ncoverage "@
        + coverage_cell(f.covered_count() as nat, f.executable_count() as nat, source)
        + " · "@ + html_delta_text(file_delta(delta)) + " · diff coverage "@ + pct_text(
        delta.diff.covered as nat,
        delta.diff.relevant as nat,
    ) + " ("@ + dec(delta.diff.covered as nat) + "/"@ + dec(delta.diff.relevant as nat)
        + ")</div></header>\n<main>\n<div class=\"legend\">\n<span style=\"background:#e6ffec\">covered</span>\n<span style=\"background:#ffebe9\">uncovered</span>\n<span style=\"background:#abf2bc\">covered + changed</span>\n<span style=\"background:#ffb3ad\">uncovered + changed</span>\n<span>± = line changed in this PR</span>\n</div>\n"@
        + uncovered_links_text(delta.diff.uncovered_lines@) + "\n"@ + page_body(f, changed, source)
        + "\n</main></body></html>\n"@
}


fn push_coverage_cell(out: &mut Vec<char>, covered: u32, executable: u32, source: Option<&str>)
    ensures
        final(out)@ == old(out)@ + coverage_cell(
            covered as nat,
            executable as nat,
            match source {
                Some(t) => Some(t@),
                None => None,
            },
        ),
{
    if executable > 0 {
        crate::pct::push_pct(out, covered as u64, executable as u64);
    } else {
        let empty = match source {
            Some(t) => t.is_empty(),
            None => false,
        };
        if empty {
            push_str(out, "empty file");
        } else {
            push_str(out, "no executable lines");
        }
    }
}

fn push_source_rows(out: &mut Vec<char>, file: &FileCoverage, changed: &ChangedLines, text: &str)
    ensures
        final(out)@ == old(out)@ + source_rows(lines(text@), file.line_hits@, *changed, file.path@),
{
    let cs = chars_of(text);
    let src = crate::text::lines_of(&cs);
    let ghost lv = lines(text@);
    assert(lv.len() == src@.len());
    let ghost start = out@;
    let mut i: usize = 0;
    while i < src.len()
        invariant
            i <= src@.len(),
            lv == src@.map_values(|v: Vec<char>| v@),
            out@ == start + source_rows(lv.take(i as int), file.line_hits@, *changed, file.path@),
        decreases src@.len() - i,
    {
        assert(lv.take(i + 1).drop_last() =~= lv.take(i as int));
        assert(lv.take(i + 1).last() == src@[i as int]@);
        let line = (i + 1) as u32;
        let hits = hit_at_exec(&file.line_hits, line);
        let is_changed = changed.contains_line(file.path.as_str(), line);
        push_code_row(out, line, hits, is_changed, &src[i]);
        i += 1;
    }
    assert(lv.take(i as int) =~= lv);
}

fn push_hit_rows(out: &mut Vec<char>, file: &FileCoverage, changed: &ChangedLines)
    ensures
        final(out)@ == old(out)@ + hit_rows(file.line_hits@, *changed, file.path@),
{
    let na = chars_of("(source not available)");
    let ghost start = out@;
    let mut i: usize = 0;
    while i < file.line_hits.len()
        invariant
            i <= file.line_hits@.len(),
            na@ == "(source not available)"@,
            out@ == start + hit_rows(file.line_hits@.take(i as int), *changed, file.path@),
        decreases file.line_hits@.len() - i,
    {
        assert(file.line_hits@.take(i + 1).drop_last() =~= file.line_hits@.take(i as int));
        let lh = file.line_hits[i];
        let is_changed = changed.contains_line(file.path.as_str(), lh.line);
        push_code_row(out, lh.line, Some(lh.hits), is_changed, &na);
        i += 1;
    }
    assert(file.line_hits@.take(i as int) =~= file.line_hits@);
}

fn push_page_body(out: &mut Vec<char>, file: &FileCoverage, changed: &ChangedLines, source: Option<&str>)
    ensures
        final(out)@ == old(out)@ + page_body(
            *file,
            *changed,
            match source {
                Some(t) => Some(t@),
                None => None,
            },
        ),
{
    match source {
        Some(text) => {
            if text.is_empty() {
                push_str(out, "<div class=\"notice\">This file is empty — there is nothing to measure.</div>");
            } else {
                if file.executable_lines() == 0 {
                    push_str(out, "<div class=\"notice\">No executable lines — this file is not measurable (comments/blank lines only).</div>");
                }
                push_str(out, "<table class=\"code\"><tbody>\n");
                push_source_rows(out, file, changed, text);
                push_str(out, "</tbody></table>");
            }
        },
        None => {
            push_str(out, "<div class=\"notice\">Source file not found in checkout — showing executable lines only.</div><table class=\"code\"><tbody>\n");
            push_hit_rows(out, file, changed);
            push_str(out, "</tbody></table>");
        },
    }
    assert(final(out)@ =~= old(out)@ + page_body(
        *file,
        *changed,
        match source {
            Some(t) => Some(t@),
            None => None,
        },
    ));
}

fn push_uncovered_links(out: &mut Vec<char>, lines: &Vec<u32>)
    ensures
        final(out)@ == old(out)@ + uncovered_links_text(lines@),
{
    if lines.len() == 0 {
        return;
    }
    push_str(out, "<div class=\"uncovered-links\">Uncovered changed lines: ");
    let ghost links = Seq::new(lines@.len(), |i: int| line_anchor(lines@[i]));
    let ghost start = out@;
    let mut i: usize = 0;
    while i < lines.len()
        invariant
            i <= lines@.len(),
            links == Seq::new(lines@.len(), |i: int| line_anchor(lines@[i])),
            out@ == start + join(links.take(i as int), " "@),
        decreases lines@.len() - i,
    {
        proof {
            crate::text::lemma_join_push(links.take(i as int), " "@, links[i as int]);
            assert(links.take(i as int).push(links[i as int]) =~= links.take(i + 1));
        }
        if i > 0 {
            push_str(out, " ");
        }
        push_str(out, "<a href=\"#L");
        push_dec(out, lines[i] as u64);
        push_str(out, "\">L");
        push_dec(out, lines[i] as u64);
        push_str(out, "</a>");
        i += 1;
        assert(out@ =~= start + join(links.take(i as int), " "@));
    }
    assert(links.take(i as int) =~= links);
    push_str(out, "</div>");
}

/// The page of one file: its coverage, delta and changed-line coverage, the
/// links to its uncovered changed lines, and its source lines (or, without
/// the source, its executable lines).
pub fn render_file_page(
    file: &FileCoverage,
    delta: &FileDelta,
    changed: &ChangedLines,
    source: Option<&str>,
) -> (r: String)
    ensures
        r@ == file_page_text(
            *file,
            *delta,
            *changed,
            match source {
                Some(t) => Some(t@),
                None => None,
            },
        ),
{
    let ghost src = match source {
        Some(t) => Some(t@),
        None => None,
    };
    let mut out: Vec<char> = Vec::new();
    push_str(&mut out, "<!DOCTYPE html>\n<html lang=\"en\"><head><meta charset=\"utf-8\">\n<title>");
    push_escaped(&mut out, file.path.as_str());
    push_str(&mut out, " - Badgers Coverage</title><style>");
    push_str(&mut out, STYLE);
    push_str(&mut out, "</style></head>\n<body>\n<header><h1>");
    push_escaped(&mut out, file.path.as_str());
    push_str(&mut out, "</h1>\n<div class=\"meta\"><a href=\"index.html\" style=\"color:#d0d7de\">← index</a> ·\ncoverage ");
    let ghost s0 = out@;
    push_coverage_cell(&mut out, file.covered_lines(), file.executable_lines(), source);
    push_str(&mut out, " · ");
    let d = crate::report_markdown::file_delta_exec(delta);
    push_html_delta(&mut out, d);
    push_str(&mut out, " · diff coverage ");
    crate::pct::push_pct(&mut out, delta.diff.covered as u64, delta.diff.relevant as u64);
    push_str(&mut out, " (");
    push_dec(&mut out, delta.diff.covered as u64);
    push_str(&mut out, "/");
    push_dec(&mut out, delta.diff.relevant as u64);
    push_str(&mut out, ")</div></header>\n<main>\n<div class=\"legend\">\n<span style=\"background:#e6ffec\">covered</span>\n<span style=\"background:#ffebe9\">uncovered</span>\n<span style=\"background:#abf2bc\">covered + changed</span>\n<span style=\"background:#ffb3ad\">uncovered + changed</span>\n<span>± = line changed in this PR</span>\n</div>\n");
    let ghost s1 = out@;
    push_uncovered_links(&mut out, &delta.diff.uncovered_lines);
    push_str(&mut out, "\n");
    push_page_body(&mut out, file, changed, source);
    push_str(&mut out, "\n</main></body></html>\n");
    assert(out@ =~= file_page_text(*file, *delta, *changed, src));
    crate::text::string_of(&out)
}


// ---------------------------------------------------------------------------
// The index tree.
// ---------------------------------------------------------------------------

/// The last `/`-separated component of a path.
pub open spec fn file_name_of(path: Seq<char>) -> Seq<char> {
    crate::text::split(path, '/').last()
}

pub open spec fn dir_row_head(display: Seq<char>, depth: nat) -> Seq<char> {
    "<details class=\"dirnode\""@ + (if depth == 0 {
        " open"@
    } else {
        seq![]
    }) + "><summary class=\"row dir\">\n<span class=\"cell name\" style=\"padding-left:"@ + dec(
        12 + depth * 18,
    ) + "px\">"@ + html_escaped(display) + "/</span>\n"@
}

pub open spec fn dir_row_counts(a: Agg) -> Seq<char> {
    "<span class=\"cell\">"@ + dec(a.head_executable as nat) + "</span><span class=\"cell\">"@
        + dec(a.head_covered as nat) + "</span>\n<span class=\"cell\">"@ + (if a.head_executable
        == 0 {
        "–"@
    } else {
        pct_text(a.head_covered as nat, a.head_executable as nat)
    }) + "</span>"@
}

pub open spec fn dir_row_tail(a: Agg, delta_shown: bool) -> Seq<char> {
    "<span class=\"cell\">"@ + html_delta_text(agg_delta(a, delta_shown))
        + "</span>\n<span class=\"cell\">"@ + html_diff_text(
        a.diff_covered as nat,
        a.diff_relevant as nat,
    ) + "</span></summary>\n"@
}

/// A directory row; `display` is its name, or a chain of names of
/// directories that hold nothing but one subdirectory.
pub open spec fn dir_row_text(display: Seq<char>, depth: nat, a: Agg, delta_shown: bool) -> Seq<char> {
    dir_row_head(display, depth) + dir_row_counts(a) + dir_row_tail(a, delta_shown)
}

pub open spec fn name_cell_text(f: FileDelta, idx: usize) -> Seq<char> {
    match f.head {
        Some(_) => "<a href=\"file-"@ + dec(idx as nat) + ".html\">"@ + html_escaped(
            file_name_of(f.path@),
        ) + "</a>"@,
        None => "<span class=\"removed\">"@ + html_escaped(file_name_of(f.path@))
            + " (removed)</span>"@,
    }
}

pub open spec fn file_coverage_text(f: FileDelta) -> Seq<char> {
    match f.head {
        Some(c) => if c.executable == 0 {
            "<span class=\"flat\">no executable lines</span>"@
        } else {
            pct_text(c.covered as nat, c.executable as nat)
        },
        None => "n/a"@,
    }
}

pub open spec fn file_row_head(f: FileDelta, idx: usize, depth: nat) -> Seq<char> {
    "<div class=\"row file\">\n<span class=\"cell name\" style=\"padding-left:"@ + dec(
        12 + depth * 18 + 18,
    ) + "px\">"@ + name_cell_text(f, idx) + "</span>\n"@
}

pub open spec fn file_row_counts(f: FileDelta) -> Seq<char> {
    let (covered, executable) = match f.head {
        Some(c) => (c.covered as nat, c.executable as nat),
        None => (0nat, 0nat),
    };
    "<span class=\"cell\">"@ + dec(executable) + "</span><span class=\"cell\">"@ + dec(covered)
        + "</span>\n<span class=\"cell\">"@ + file_coverage_text(f) + "</span>"@
}

pub open spec fn file_row_tail(f: FileDelta) -> Seq<char> {
    "<span class=\"cell\">"@ + html_delta_text(file_delta(f)) + "</span>\n<span class=\"cell\">"@
        + html_diff_text(f.diff.covered as nat, f.diff.relevant as nat) + "</span></div>\n"@
}

/// A file row of the tree, linking to the file's page when it has head coverage.
pub open spec fn html_file_row(f: FileDelta, idx: usize, depth: nat) -> Seq<char> {
    file_row_head(f, idx, depth) + file_row_counts(f) + file_row_tail(f)
}

pub open spec fn html_file_rows(files: Seq<FileDelta>, idx: Seq<usize>, depth: nat) -> Seq<char>
    decreases idx.len(),
{
    if idx.len() == 0 {
        seq![]
    } else {
        html_file_rows(files, idx.drop_last(), depth) + html_file_row(
            files[idx.last() as int],
            idx.last(),
            depth,
        )
    }
}

/// The subdirectories `names` of `d`.
pub open spec fn html_blocks(
    files: Seq<FileDelta>,
    ps: Seq<Seq<Seq<char>>>,
    d: Seq<Seq<char>>,
    names: Seq<Seq<char>>,
    depth: nat,
    delta_shown: bool,
) -> Seq<char>
    decreases max_parts(ps) - d.len(), 0int, names.len(),
{
    if names.len() == 0 || d.len() >= max_parts(ps) {
        seq![]
    } else {
        html_blocks(files, ps, d, names.drop_last(), depth, delta_shown) + html_chain(
            files,
            ps,
            d.push(names.last()),
            names.last(),
            depth,
            delta_shown,
        )
    }
}

/// Directory `c`, shown as `display`: a directory with no files and a single
/// subdirectory is merged into that subdirectory's row.
pub open spec fn html_chain(
    files: Seq<FileDelta>,
    ps: Seq<Seq<Seq<char>>>,
    c: Seq<Seq<char>>,
    display: Seq<char>,
    depth: nat,
    delta_shown: bool,
) -> Seq<char>
    decreases max_parts(ps) - c.len(), 1int, 0int,
{
    let names = child_names(ps, c, ps.len());
    let direct = direct_files(ps, c, ps.len());
    if c.len() < max_parts(ps) && direct.len() == 0 && names.len() == 1 {
        html_chain(files, ps, c.push(names[0]), display + "/"@ + names[0], depth, delta_shown)
    } else {
        dir_row_text(display, depth, dir_agg(files, ps, c, files.len()), delta_shown) + html_blocks(
            files,
            ps,
            c,
            names,
            depth + 1,
            delta_shown,
        ) + html_file_rows(files, direct, depth + 1) + "</details>\n"@
    }
}

fn push_dir_row_head(out: &mut Vec<char>, display: &Vec<char>, depth: usize)
    ensures
        final(out)@ == old(out)@ + dir_row_head(display@, depth as nat),
{
    push_str(out, "<details class=\"dirnode\"");
    if depth == 0 {
        push_str(out, " open");
    }
    push_str(out, "><summary class=\"row dir\">\n<span class=\"cell name\" style=\"padding-left:");
    crate::pct::push_dec128(out, 12 + (depth as u128) * 18);
    push_str(out, "px\">");
    crate::github_storage::push_html_escaped(out, display);
    push_str(out, "/</span>\n");
    assert(final(out)@ =~= old(out)@ + dir_row_head(display@, depth as nat));
}

fn push_dir_row_counts(out: &mut Vec<char>, a: DirAgg)
    ensures
        final(out)@ == old(out)@ + dir_row_counts(a.spec_agg()),
{
    push_str(out, "<span class=\"cell\">");
    push_dec(out, a.head_executable);
    push_str(out, "</span><span class=\"cell\">");
    push_dec(out, a.head_covered);
    push_str(out, "</span>\n<span class=\"cell\">");
    if a.head_executable == 0 {
        push_str(out, "–");
    } else {
        crate::pct::push_pct(out, a.head_covered, a.head_executable);
    }
    push_str(out, "</span>");
    assert(final(out)@ =~= old(out)@ + dir_row_counts(a.spec_agg()));
}

fn push_dir_row_tail(out: &mut Vec<char>, a: DirAgg, delta_shown: bool)
    ensures
        final(out)@ == old(out)@ + dir_row_tail(a.spec_agg(), delta_shown),
{
    push_str(out, "<span class=\"cell\">");
    let d = if delta_shown && a.head_executable > 0 && a.base_executable > 0 {
        Some((a.head_covered, a.head_executable, a.base_covered, a.base_executable))
    } else {
        None
    };
    push_html_delta(out, d);
    push_str(out, "</span>\n<span class=\"cell\">");
    push_html_diff(out, a.diff_covered, a.diff_relevant);
    push_str(out, "</span></summary>\n");
    assert(final(out)@ =~= old(out)@ + dir_row_tail(a.spec_agg(), delta_shown));
}

fn push_dir_row(out: &mut Vec<char>, display: &Vec<char>, depth: usize, a: DirAgg, delta_shown: bool)
    ensures
        final(out)@ == old(out)@ + dir_row_text(display@, depth as nat, a.spec_agg(), delta_shown),
{
    push_dir_row_head(out, display, depth);
    push_dir_row_counts(out, a);
    push_dir_row_tail(out, a, delta_shown);
    assert(final(out)@ =~= old(out)@ + dir_row_text(display@, depth as nat, a.spec_agg(), delta_shown));
}

fn file_name_exec(path: &str) -> (r: Vec<char>)
    ensures
        r@ == file_name_of(path@),
{
    let cs = chars_of(path);
    let parts = crate::text::split_char(&cs, '/');
    proof {
        crate::text::lemma_split_nonempty(path@, '/');
        assert(parts@.map_values(|v: Vec<char>| v@)[parts@.len() - 1] == parts@[parts@.len() - 1]@);
    }
    let last = parts.len() - 1;
    crate::text::slice_of(&parts[last], 0, parts[last].len())
}

fn push_name_cell(out: &mut Vec<char>, f: &FileDelta, idx: usize)
    ensures
        final(out)@ == old(out)@ + name_cell_text(*f, idx),
{
    let name = file_name_exec(f.path.as_str());
    match f.head {
        Some(_) => {
            push_str(out, "<a href=\"file-");
            push_dec(out, idx as u64);
            push_str(out, ".html\">");
            crate::github_storage::push_html_escaped(out, &name);
            push_str(out, "</a>");
        },
        None => {
            push_str(out, "<span class=\"removed\">");
            crate::github_storage::push_html_escaped(out, &name);
            push_str(out, " (removed)</span>");
        },
    }
    assert(final(out)@ =~= old(out)@ + name_cell_text(*f, idx));
}

fn push_file_coverage(out: &mut Vec<char>, f: &FileDelta)
    ensures
        final(out)@ == old(out)@ + file_coverage_text(*f),
{
    match f.head {
        Some(c) => {
            if c.executable == 0 {
                push_str(out, "<span class=\"flat\">no executable lines</span>");
            } else {
                crate::pct::push_pct(out, c.covered, c.executable);
            }
        },
        None => push_str(out, "n/a"),
    }
}

fn push_file_row_head(out: &mut Vec<char>, f: &FileDelta, idx: usize, depth: usize)
    ensures
        final(out)@ == old(out)@ + file_row_head(*f, idx, depth as nat),
{
    push_str(out, "<div class=\"row file\">\n<span class=\"cell name\" style=\"padding-left:");
    crate::pct::push_dec128(out, 12 + (depth as u128) * 18 + 18);
    push_str(out, "px\">");
    push_name_cell(out, f, idx);
    push_str(out, "</span>\n");
    assert(final(out)@ =~= old(out)@ + file_row_head(*f, idx, depth as nat));
}

fn push_file_row_counts(out: &mut Vec<char>, f: &FileDelta)
    ensures
        final(out)@ == old(out)@ + file_row_counts(*f),
{
    let (covered, executable): (u64, u64) = match f.head {
        Some(c) => (c.covered, c.executable),
        None => (0, 0),
    };
    push_str(out, "<span class=\"cell\">");
    push_dec(out, executable);
    push_str(out, "</span><span class=\"cell\">");
    push_dec(out, covered);
    push_str(out, "</span>\n<span class=\"cell\">");
    push_file_coverage(out, f);
    push_str(out, "</span>");
    assert(final(out)@ =~= old(out)@ + file_row_counts(*f));
}

fn push_file_row_tail(out: &mut Vec<char>, f: &FileDelta)
    ensures
        final(out)@ == old(out)@ + file_row_tail(*f),
{
    push_str(out, "<span class=\"cell\">");
    let d = crate::report_markdown::file_delta_exec(f);
    push_html_delta(out, d);
    push_str(out, "</span>\n<span class=\"cell\">");
    push_html_diff(out, f.diff.covered, f.diff.relevant);
    push_str(out, "</span></div>\n");
    assert(final(out)@ =~= old(out)@ + file_row_tail(*f));
}

fn push_html_file_row(out: &mut Vec<char>, f: &FileDelta, idx: usize, depth: usize)
    ensures
        final(out)@ == old(out)@ + html_file_row(*f, idx, depth as nat),
{
    push_file_row_head(out, f, idx, depth);
    push_file_row_counts(out, f);
    push_file_row_tail(out, f);
    assert(final(out)@ =~= old(out)@ + html_file_row(*f, idx, depth as nat));
}

fn push_html_file_rows(out: &mut Vec<char>, files: &Vec<FileDelta>, idx: &Vec<usize>, depth: usize)
    requires
        forall|j: int| 0 <= j < idx@.len() ==> #[trigger] idx@[j] < files@.len(),
    ensures
        final(out)@ == old(out)@ + html_file_rows(files@, idx@, depth as nat),
{
    let ghost start = out@;
    let mut i: usize = 0;
    while i < idx.len()
        invariant
            i <= idx@.len(),
            forall|j: int| 0 <= j < idx@.len() ==> #[trigger] idx@[j] < files@.len(),
            out@ == start + html_file_rows(files@, idx@.take(i as int), depth as nat),
        decreases idx@.len() - i,
    {
        assert(idx@.take(i + 1).drop_last() =~= idx@.take(i as int));
        assert(idx@[i as int] < files@.len());
        push_html_file_row(out, &files[idx[i]], idx[i], depth);
        i += 1;
    }
    assert(idx@.take(i as int) =~= idx@);
}


fn push_html_blocks(
    out: &mut Vec<char>,
    files: &Vec<FileDelta>,
    ps: &Vec<Vec<Vec<char>>>,
    d: &Vec<Vec<char>>,
    depth: usize,
    maxp: usize,
    delta_shown: bool,
)
    requires
        crate::report_markdown::tree_inputs(files@, ps@, maxp),
        depth <= d@.len(),
    ensures
        final(out)@ == old(out)@ + html_blocks(
            files@,
            parts_views(ps@),
            vec_views(d@),
            child_names(parts_views(ps@), vec_views(d@), ps@.len()),
            depth as nat,
            delta_shown,
        ),
    decreases maxp - d@.len(), 0int, 0int,
{
    let ghost pv = parts_views(ps@);
    let ghost dv = vec_views(d@);
    let names = crate::dirtree::child_names_exec(ps, d);
    let ghost nv = vec_views(names@);
    if d.len() >= maxp {
        return;
    }
    let ghost start = out@;
    let mut i: usize = 0;
    while i < names.len()
        invariant
            i <= names@.len(),
            crate::report_markdown::tree_inputs(files@, ps@, maxp),
            depth <= d@.len() < maxp,
            pv == parts_views(ps@),
            dv == vec_views(d@),
            nv == vec_views(names@),
            out@ == start + html_blocks(files@, pv, dv, nv.take(i as int), depth as nat, delta_shown),
        decreases names@.len() - i,
    {
        proof {
            assert(nv.take(i + 1).drop_last() =~= nv.take(i as int));
            assert(nv.take(i + 1).last() == names@[i as int]@);
        }
        let c = crate::dirtree::child_dir(d, &names[i]);
        let display = crate::text::slice_of(&names[i], 0, names[i].len());
        assert(display@ =~= names@[i as int]@);
        push_html_chain(out, files, ps, &c, &display, depth, maxp, delta_shown);
        i += 1;
    }
    assert(nv.take(i as int) =~= nv);
}

#[verifier::spinoff_prover]
#[verifier::rlimit(60)]
fn push_html_chain(
    out: &mut Vec<char>,
    files: &Vec<FileDelta>,
    ps: &Vec<Vec<Vec<char>>>,
    c: &Vec<Vec<char>>,
    display: &Vec<char>,
    depth: usize,
    maxp: usize,
    delta_shown: bool,
)
    requires
        crate::report_markdown::tree_inputs(files@, ps@, maxp),
        depth < c@.len() <= maxp,
    ensures
        final(out)@ == old(out)@ + html_chain(
            files@,
            parts_views(ps@),
            vec_views(c@),
            display@,
            depth as nat,
            delta_shown,
        ),
    decreases maxp - c@.len(), 1int, 0int,
{
    let ghost pv = parts_views(ps@);
    let ghost cv = vec_views(c@);
    let names = crate::dirtree::child_names_exec(ps, c);
    let direct = crate::dirtree::direct_files_exec(ps, c);
    assert(ps@.len() == pv.len());
    assert(files@.len() == path_parts(files@).len());
    if c.len() < maxp && direct.len() == 0 && names.len() == 1 {
        let c2 = crate::dirtree::child_dir(c, &names[0]);
        let mut display2 = crate::text::slice_of(display, 0, display.len());
        display2.push('/');
        push_chars(&mut display2, &names[0]);
        assert(vec_views(names@)[0] == names@[0]@);
        assert(display2@ =~= display@ + "/"@ + names@[0]@) by {
            reveal_strlit("/");
        }
        push_html_chain(out, files, ps, &c2, &display2, depth, maxp, delta_shown);
    } else {
        let ghost s0 = out@;
        let agg = crate::dirtree::aggregate(files, ps, c);
        push_dir_row(out, display, depth, agg, delta_shown);
        let ghost s1 = out@;
        push_html_blocks(out, files, ps, c, depth + 1, maxp, delta_shown);
        let ghost s2 = out@;
        push_html_file_rows(out, files, &direct, depth + 1);
        let ghost s3 = out@;
        push_str(out, "</details>\n");
        proof {
            let a = dir_row_text(display@, depth as nat, dir_agg(files@, pv, cv, files@.len()), delta_shown);
            let b = html_blocks(files@, pv, cv, child_names(pv, cv, ps@.len()), (depth + 1) as nat, delta_shown);
            let e = html_file_rows(files@, direct_files(pv, cv, ps@.len()), (depth + 1) as nat);
            assert(s1 == s0 + a);
            assert(s2 == s1 + b);
            assert(s3 == s2 + e);
            assert(out@ =~= s0 + (a + b + e + "</details>\n"@));
        }
    }
}

/// The rows of the index tree: the top-level directories, then the files
/// at the top level.
pub open spec fn tree_rows(files: Seq<FileDelta>, delta_shown: bool) -> Seq<char> {
    let ps = path_parts(files);
    html_blocks(files, ps, seq![], child_names(ps, seq![], ps.len()), 0, delta_shown) + html_file_rows(
        files,
        direct_files(ps, seq![], ps.len()),
        0,
    )
}

fn push_tree_rows(out: &mut Vec<char>, files: &Vec<FileDelta>, delta_shown: bool)
    requires
        agg_fits(all_agg(files@, files@.len())),
    ensures
        final(out)@ == old(out)@ + tree_rows(files@, delta_shown),
{
    let ps = crate::dirtree::parts_of_files(files);
    let maxp = crate::dirtree::max_parts_exec(&ps);
    let root: Vec<Vec<char>> = Vec::new();
    assert(vec_views(root@) =~= seq![]);
    assert(parts_views(ps@).len() == files@.len());
    push_html_blocks(out, files, &ps, &root, 0, maxp, delta_shown);
    let direct = crate::dirtree::direct_files_exec(&ps, &root);
    push_html_file_rows(out, files, &direct, 0);
}

// ---------------------------------------------------------------------------
// The index page.
// ---------------------------------------------------------------------------

pub open spec fn notice_label(k: CoverageScopeChangeKind) -> Seq<char> {
    match k {
        CoverageScopeChangeKind::Appeared => "Appeared in coverage"@,
        CoverageScopeChangeKind::Disappeared => "Disappeared from coverage"@,
    }
}

pub open spec fn notice_items(e: Seq<CoverageScopeEntry>) -> Seq<char>
    decreases e.len(),
{
    if e.len() == 0 {
        seq![]
    } else {
        notice_items(e.drop_last()) + "<li>"@ + notice_label(e.last().kind) + ": <code>"@
            + html_escaped(escaped_path(e.last().path@)) + "</code></li>"@
    }
}

/// The notice that the measured file set changed, listing the first hundred
/// affected paths.
pub open spec fn scope_notice_text(e: Seq<CoverageScopeEntry>) -> Seq<char> {
    "<div class=\"notice\"><strong>Coverage scope changed.</strong> Aggregate deltas are suppressed because the measured file set changed.<ul>"@
        + notice_items(shown_entries(e)) + (if omitted_count(e) > 0 {
        "<li>... and "@ + dec(omitted_count(e)) + " more</li>"@
    } else {
        seq![]
    }) + "</ul></div>"@
}

pub open spec fn notice_of(scope: Option<Seq<CoverageScopeEntry>>) -> Seq<char> {
    match scope {
        Some(e) => scope_notice_text(e),
        None => seq![],
    }
}

fn push_scope_notice<'a>(out: &mut Vec<char>, analysis: &'a ComparisonAnalysis) -> (e: Ghost<Option<Seq<CoverageScopeEntry<'a>>>>)
    ensures
        scope_of(*analysis, e@),
        final(out)@ == old(out)@ + notice_of(e@),
{
    if !analysis.scope_changed() {
        return Ghost(None);
    }
    let entries = analysis.affected_entries();
    let ghost full = entries@;
    let n = if entries.len() > crate::render::MAX_RENDERED_SCOPE_PATHS {
        crate::render::MAX_RENDERED_SCOPE_PATHS
    } else {
        entries.len()
    };
    let ghost shown = shown_entries(full);
    assert(shown =~= full.take(n as int));
    push_str(out, "<div class=\"notice\"><strong>Coverage scope changed.</strong> Aggregate deltas are suppressed because the measured file set changed.<ul>");
    let ghost start = out@;
    let mut i: usize = 0;
    while i < n
        invariant
            i <= n <= entries@.len(),
            full == entries@,
            shown == full.take(n as int),
            out@ == start + notice_items(shown.take(i as int)),
        decreases n - i,
    {
        assert(shown.take(i + 1).drop_last() =~= shown.take(i as int));
        let entry = entries[i];
        push_str(out, "<li>");
        match entry.kind {
            CoverageScopeChangeKind::Appeared => push_str(out, "Appeared in coverage"),
            CoverageScopeChangeKind::Disappeared => push_str(out, "Disappeared from coverage"),
        }
        push_str(out, ": <code>");
        let escaped = crate::render::escape_path(entry.path);
        push_escaped(out, escaped.as_str());
        push_str(out, "</code></li>");
        i += 1;
        assert(out@ =~= start + notice_items(shown.take(i as int)));
    }
    assert(shown.take(i as int) =~= shown);
    if entries.len() > crate::render::MAX_RENDERED_SCOPE_PATHS {
        push_str(out, "<li>... and ");
        push_dec(out, (entries.len() - crate::render::MAX_RENDERED_SCOPE_PATHS) as u64);
        push_str(out, " more</li>");
    }
    push_str(out, "</ul></div>");
    assert(out@ =~= old(out)@ + scope_notice_text(full));
    assert(exists|k: int|
        #[trigger] crate::compare::affected_split(
            full,
            k,
            analysis.scope_change.appeared@,
            analysis.scope_change.disappeared@,
        ));
    proof {
        let k = choose|k: int|
            #[trigger] crate::compare::affected_split(
                full,
                k,
                analysis.scope_change.appeared@,
                analysis.scope_change.disappeared@,
            );
        crate::render::lemma_scope_of_some(*analysis, full, k);
    }
    Ghost(Some(full))
}

/// The scope notice of an analysis, empty when its scope did not change.
pub fn render_scope_notice(analysis: &ComparisonAnalysis) -> (r: String)
    ensures
        exists|scope: Option<Seq<CoverageScopeEntry>>|
            #[trigger] scope_of(*analysis, scope) && r@ == notice_of(scope),
{
    let mut out: Vec<char> = Vec::new();
    let e = push_scope_notice(&mut out, analysis);
    assert(out@ =~= notice_of(e@));
    crate::text::string_of(&out)
}


pub open spec fn scope_changed_of(a: ComparisonAnalysis) -> bool {
    a.scope_change.appeared@.len() > 0 || a.scope_change.disappeared@.len() > 0
}

pub open spec fn base_note(a: ComparisonAnalysis) -> Seq<char> {
    if scope_changed_of(a) {
        "coverage scope changed"@
    } else if a.comparison.base_available {
        "vs base snapshot"@
    } else {
        "no base snapshot"@
    }
}

/// The total delta of an analysis: none when the scope changed.
pub open spec fn analysis_delta(a: ComparisonAnalysis) -> Option<(nat, nat, nat, nat)> {
    if scope_changed_of(a) {
        None
    } else {
        crate::report_github::comparison_delta(a.comparison)
    }
}

pub open spec fn index_top(head: CoverageSnapshot) -> Seq<char> {
    "<!DOCTYPE html>\n<html lang=\"en\"><head><meta charset=\"utf-8\">\n<title>Badgers Coverage Report</title><style>"@
        + STYLE@ + "</style></head>\n<body>\n<header><h1>🦡 Badgers Coverage Report</h1>\n<div class=\"meta\">"@
        + html_escaped(head.repo@) + " @ "@ + byte_prefix(head.commit_sha@, 7) + " · generated "@
        + html_escaped(head.generated_at@) + "</div></header>\n<main>\n<div class=\"cards\">\n"@
}

pub open spec fn total_card(a: ComparisonAnalysis) -> Seq<char> {
    let h = counts_total(head_side(a.comparison.files@));
    "<div class=\"card\"><div class=\"label\">Total line coverage</div>\n<div class=\"value\">"@
        + pct_text(h.0 as nat, h.1 as nat) + "</div>\n<div class=\"sub\">"@ + dec(h.0 as nat) + "/"@
        + dec(h.1 as nat) + " lines · "@ + html_delta_text(analysis_delta(a)) + " "@ + base_note(a)
        + "</div></div>\n"@
}

pub open spec fn diff_card(a: ComparisonAnalysis) -> Seq<char> {
    let d = diff_total(a.comparison.files@);
    "<div class=\"card\"><div class=\"label\">Diff coverage (changed lines)</div>\n<div class=\"value\">"@
        + pct_text(d.1 as nat, d.0 as nat) + "</div>\n<div class=\"sub\">"@ + dec(d.1 as nat) + "/"@
        + dec(d.0 as nat) + " changed executable lines</div></div>\n</div>\n"@
}

pub open spec fn tree_header() -> Seq<char> {
    "\n<div class=\"tree\">\n<div class=\"row header\">\n<span class=\"cell name\">File</span><span class=\"cell\">Lines</span>\n<span class=\"cell\">Covered</span><span class=\"cell\">Coverage</span>\n<span class=\"cell\">Δ</span><span class=\"cell\">Diff coverage</span></div>\n"@
}

/// The index page: the totals, the coverage-scope notice when the scope
/// changed, and the tree of directories and files.
pub open spec fn index_text(
    head: CoverageSnapshot,
    a: ComparisonAnalysis,
    scope: Option<Seq<CoverageScopeEntry>>,
) -> Seq<char> {
    index_top(head) + total_card(a) + diff_card(a) + notice_of(scope) + tree_header() + tree_rows(
        a.comparison.files@,
        a.comparison.base_available && !scope_changed_of(a),
    ) + "\n</div>\n</main></body></html>\n"@
}

fn push_index_top(out: &mut Vec<char>, head: &CoverageSnapshot)
    requires
        byte_boundary(head.commit_sha@, 7),
    ensures
        final(out)@ == old(out)@ + index_top(*head),
{
    push_str(out, "<!DOCTYPE html>\n<html lang=\"en\"><head><meta charset=\"utf-8\">\n<title>Badgers Coverage Report</title><style>");
    push_str(out, STYLE);
    push_str(out, "</style></head>\n<body>\n<header><h1>🦡 Badgers Coverage Report</h1>\n<div class=\"meta\">");
    push_escaped(out, head.repo.as_str());
    push_str(out, " @ ");
    let short = crate::text::utf8_prefix(head.commit_sha.as_str(), 7);
    push_str(out, short.as_str());
    push_str(out, " · generated ");
    push_escaped(out, head.generated_at.as_str());
    push_str(out, "</div></header>\n<main>\n<div class=\"cards\">\n");
    assert(final(out)@ =~= old(out)@ + index_top(*head));
}

fn push_analysis_delta(out: &mut Vec<char>, a: &ComparisonAnalysis, head_covered: u64, head_executable: u64)
    requires
        totals_fit(a.comparison),
        head_covered == counts_total(head_side(a.comparison.files@)).0,
        head_executable == counts_total(head_side(a.comparison.files@)).1,
    ensures
        final(out)@ == old(out)@ + html_delta_text(analysis_delta(*a)),
{
    let changed = a.scope_changed();
    let d = if !changed && a.comparison.base_available {
        let base = a.base_totals();
        if head_executable > 0 && base.executable > 0 {
            Some((head_covered, head_executable, base.covered, base.executable))
        } else {
            None
        }
    } else {
        None
    };
    push_html_delta(out, d);
}

fn push_base_note(out: &mut Vec<char>, a: &ComparisonAnalysis)
    ensures
        final(out)@ == old(out)@ + base_note(*a),
{
    if a.scope_changed() {
        push_str(out, "coverage scope changed");
    } else if a.comparison.base_available {
        push_str(out, "vs base snapshot");
    } else {
        push_str(out, "no base snapshot");
    }
}

fn push_total_card(out: &mut Vec<char>, a: &ComparisonAnalysis)
    requires
        totals_fit(a.comparison),
    ensures
        final(out)@ == old(out)@ + total_card(*a),
{
    let totals = a.head_totals();
    push_str(out, "<div class=\"card\"><div class=\"label\">Total line coverage</div>\n<div class=\"value\">");
    crate::pct::push_pct(out, totals.covered, totals.executable);
    push_str(out, "</div>\n<div class=\"sub\">");
    push_dec(out, totals.covered);
    push_str(out, "/");
    push_dec(out, totals.executable);
    push_str(out, " lines · ");
    push_analysis_delta(out, a, totals.covered, totals.executable);
    push_str(out, " ");
    push_base_note(out, a);
    push_str(out, "</div></div>\n");
    assert(final(out)@ =~= old(out)@ + total_card(*a));
}

fn push_diff_card(out: &mut Vec<char>, a: &ComparisonAnalysis)
    requires
        totals_fit(a.comparison),
    ensures
        final(out)@ == old(out)@ + diff_card(*a),
{
    let diff = a.diff_totals();
    push_str(out, "<div class=\"card\"><div class=\"label\">Diff coverage (changed lines)</div>\n<div class=\"value\">");
    crate::pct::push_pct(out, diff.covered as u64, diff.relevant as u64);
    push_str(out, "</div>\n<div class=\"sub\">");
    push_dec(out, diff.covered as u64);
    push_str(out, "/");
    push_dec(out, diff.relevant as u64);
    push_str(out, " changed executable lines</div></div>\n</div>\n");
    assert(final(out)@ =~= old(out)@ + diff_card(*a));
}

/// The index page of the report.
pub fn render_index(head: &CoverageSnapshot, comparison: &ComparisonAnalysis) -> (r: String)
    requires
        byte_boundary(head.commit_sha@, 7),
        totals_fit(comparison.comparison),
    ensures
        exists|scope: Option<Seq<CoverageScopeEntry>>|
            #[trigger] scope_of(*comparison, scope) && r@ == index_text(*head, *comparison, scope),
{
    let mut out: Vec<char> = Vec::new();
    push_index_top(&mut out, head);
    push_total_card(&mut out, comparison);
    push_diff_card(&mut out, comparison);
    let ghost s0 = out@;
    let e = push_scope_notice(&mut out, comparison);
    let ghost s1 = out@;
    push_str(&mut out, "\n<div class=\"tree\">\n<div class=\"row header\">\n<span class=\"cell name\">File</span><span class=\"cell\">Lines</span>\n<span class=\"cell\">Covered</span><span class=\"cell\">Coverage</span>\n<span class=\"cell\">Δ</span><span class=\"cell\">Diff coverage</span></div>\n");
    let ghost s2 = out@;
    proof {
        crate::dirtree::lemma_all_agg_totals(comparison.comparison.files@);
    }
    let shown = comparison.comparison.base_available && !comparison.scope_changed();
    push_tree_rows(&mut out, &comparison.comparison.files, shown);
    let ghost s3 = out@;
    push_str(&mut out, "\n</div>\n</main></body></html>\n");
    proof {
        assert(s2 == s1 + tree_header());
        assert(out@ =~= index_text(*head, *comparison, e@));
    }
    crate::text::string_of(&out)
}


// ---------------------------------------------------------------------------
// Git output.
// ---------------------------------------------------------------------------

/// `str::from_utf8`: the text of `bytes` when they are well-formed UTF-8.
#[verifier::external_body]
fn utf8_text(bytes: &[u8]) -> (r: Option<String>)
    ensures
        r is Some <==> vstd::utf8::valid_utf8(bytes@),
        r matches Some(t) ==> t@ == vstd::utf8::decode_utf8(bytes@),
{
    std::str::from_utf8(bytes).ok().map(|text| text.to_string())
}

/// The text `String::from_utf8_lossy` reads from `bytes`.
pub uninterp spec fn lossy_text(bytes: Seq<u8>) -> Seq<char>;

/// `String::from_utf8_lossy`: the text of `bytes`, with each ill-formed
/// sequence replaced by U+FFFD; well-formed UTF-8 is decoded as it is. How
/// ill-formed sequences are cut before they are replaced is not stated here.
#[verifier::external_body]
fn utf8_text_lossy(bytes: &[u8]) -> (r: String)
    ensures
        r@ == lossy_text(bytes@),
        vstd::utf8::valid_utf8(bytes@) ==> r@ == vstd::utf8::decode_utf8(bytes@),
{
    String::from_utf8_lossy(bytes).into_owned()
}

/// Backslashes turned into slashes.
pub open spec fn forward_slashes(s: Seq<char>) -> Seq<char>
    decreases s.len(),
{
    if s.len() == 0 {
        seq![]
    } else {
        forward_slashes(s.drop_last()).push(
            if s.last() == '\\' {
                '/'
            } else {
                s.last()
            },
        )
    }
}

/// `s` without leading `./`, however many there are.
pub open spec fn trim_dot_slashes(s: Seq<char>) -> Seq<char>
    decreases s.len(),
{
    if s.len() >= 2 && s[0] == '.' && s[1] == '/' {
        trim_dot_slashes(s.skip(2))
    } else {
        s
    }
}

/// A path from `git ls-tree`, with `/` separators and without leading `./`.
pub open spec fn normalized_tree_path(p: Seq<char>) -> Seq<char> {
    trim_dot_slashes(forward_slashes(p))
}

pub fn normalize_tree_path(path: &str) -> (r: String)
    ensures
        r@ == normalized_tree_path(path@),
{
    let cs = chars_of(path);
    let mut slashed: Vec<char> = Vec::new();
    let mut i: usize = 0;
    while i < cs.len()
        invariant
            i <= cs@.len(),
            cs@ == path@,
            slashed@ == forward_slashes(cs@.take(i as int)),
        decreases cs@.len() - i,
    {
        assert(cs@.take(i + 1).drop_last() =~= cs@.take(i as int));
        if cs[i] == '\\' {
            slashed.push('/');
        } else {
            slashed.push(cs[i]);
        }
        i += 1;
    }
    assert(cs@.take(i as int) =~= cs@);
    let mut start: usize = 0;
    assert(slashed@.skip(0) =~= slashed@);
    while slashed.len() - start >= 2 && slashed[start] == '.' && slashed[start + 1] == '/'
        invariant
            start <= slashed@.len(),
            trim_dot_slashes(slashed@.skip(start as int)) == normalized_tree_path(path@),
        decreases slashed@.len() - start,
    {
        assert(slashed@.skip(start as int).skip(2) =~= slashed@.skip(start + 2));
        start = start + 2;
    }
    let rest = crate::text::slice_of(&slashed, start, slashed.len());
    assert(rest@ =~= slashed@.skip(start as int));
    crate::text::string_of(&rest)
}

/// The NUL-separated fields of `bytes` (`[u8]::split` on zero bytes).
pub open spec fn nul_fields(bytes: Seq<u8>) -> Seq<Seq<u8>>
    decreases bytes.len(),
{
    if bytes.len() == 0 {
        seq![seq![]]
    } else {
        let rest = nul_fields(bytes.drop_last());
        if bytes.last() == 0 {
            rest.push(seq![])
        } else {
            rest.update(rest.len() - 1, rest.last().push(bytes.last()))
        }
    }
}

proof fn lemma_nul_fields_nonempty(bytes: Seq<u8>)
    ensures
        nul_fields(bytes).len() >= 1,
    decreases bytes.len(),
{
    if bytes.len() > 0 {
        lemma_nul_fields_nonempty(bytes.drop_last());
    }
}

/// The paths listed by `git ls-tree -z`: each non-empty, well-formed UTF-8
/// field, normalized; other fields are left out.
pub open spec fn tree_paths_of(fields: Seq<Seq<u8>>) -> Seq<Seq<char>>
    decreases fields.len(),
{
    if fields.len() == 0 {
        seq![]
    } else {
        let f = fields.last();
        tree_paths_of(fields.drop_last()) + if f.len() > 0 && vstd::utf8::valid_utf8(f) {
            seq![normalized_tree_path(vstd::utf8::decode_utf8(f))]
        } else {
            seq![]
        }
    }
}

pub open spec fn string_views(v: Seq<String>) -> Seq<Seq<char>> {
    Seq::new(v.len(), |i: int| v[i]@)
}

proof fn lemma_tree_paths_push(fs: Seq<Seq<u8>>, f: Seq<u8>)
    ensures
        tree_paths_of(fs.push(f)) == tree_paths_of(fs) + if f.len() > 0 && vstd::utf8::valid_utf8(f) {
            seq![normalized_tree_path(vstd::utf8::decode_utf8(f))]
        } else {
            seq![]
        },
{
    assert(fs.push(f).drop_last() =~= fs);
}

fn push_tree_path(out: &mut Vec<String>, field: &Vec<u8>)
    ensures
        string_views(final(out)@) == string_views(old(out)@) + if field@.len() > 0
            && vstd::utf8::valid_utf8(field@) {
            seq![normalized_tree_path(vstd::utf8::decode_utf8(field@))]
        } else {
            seq![]
        },
{
    let ghost start = string_views(out@);
    if field.len() > 0 {
        match utf8_text(field.as_slice()) {
            Some(text) => {
                let path = normalize_tree_path(text.as_str());
                out.push(path);
                assert(string_views(out@) =~= start.push(path@));
            },
            None => {},
        }
    }
    assert(string_views(final(out)@) =~= start + if field@.len() > 0 && vstd::utf8::valid_utf8(
        field@,
    ) {
        seq![normalized_tree_path(vstd::utf8::decode_utf8(field@))]
    } else {
        seq![]
    });
}

/// The repository paths in the output of `git ls-tree -r --name-only -z`.
pub fn tree_paths(stdout: &[u8]) -> (r: Vec<String>)
    ensures
        string_views(r@) == tree_paths_of(nul_fields(stdout@)),
{
    let mut out: Vec<String> = Vec::new();
    let mut field: Vec<u8> = Vec::new();
    let mut i: usize = 0;
    proof {
        assert(stdout@.take(0) =~= Seq::<u8>::empty());
        assert(nul_fields(stdout@.take(0)).drop_last() =~= Seq::<Seq<u8>>::empty());
    }
    while i < stdout.len()
        invariant
            i <= stdout@.len(),
            nul_fields(stdout@.take(i as int)).len() >= 1,
            field@ == nul_fields(stdout@.take(i as int)).last(),
            string_views(out@) == tree_paths_of(nul_fields(stdout@.take(i as int)).drop_last()),
        decreases stdout@.len() - i,
    {
        let ghost before = nul_fields(stdout@.take(i as int));
        assert(stdout@.take(i + 1).drop_last() =~= stdout@.take(i as int));
        let b = stdout[i];
        if b == 0 {
            let ghost done = before.drop_last();
            push_tree_path(&mut out, &field);
            assert(before =~= done.push(field@));
            proof {
                lemma_tree_paths_push(done, field@);
            }
            field = Vec::new();
            assert(nul_fields(stdout@.take(i + 1)) =~= before.push(seq![]));
            assert(nul_fields(stdout@.take(i + 1)).drop_last() =~= before);
        } else {
            field.push(b);
            assert(nul_fields(stdout@.take(i + 1)).drop_last() =~= before.drop_last());
        }
        i += 1;
    }
    assert(stdout@.take(i as int) =~= stdout@);
    let ghost all = nul_fields(stdout@);
    push_tree_path(&mut out, &field);
    assert(all =~= all.drop_last().push(field@));
    proof {
        lemma_tree_paths_push(all.drop_last(), field@);
    }
    out
}

/// A commit for `git ls-tree` must be forty hexadecimal digits.
pub fn check_tree_commit(commit: &str) -> (r: Result<(), String>)
    ensures
        r is Ok <==> crate::github_storage::valid_sha(commit@),
        r matches Err(e) ==> e@
            == "git tree commit ID must be exactly 40 ASCII hexadecimal characters"@,
{
    let cs = chars_of(commit);
    let mut ok = cs.len() == 40;
    let mut i: usize = 0;
    while ok && i < cs.len()
        invariant
            i <= cs@.len(),
            cs@ == commit@,
            ok ==> cs@.len() == 40,
            ok ==> forall|j: int| 0 <= j < i ==> crate::text::is_hex_digit(#[trigger] cs@[j]),
            !ok ==> !crate::github_storage::valid_sha(commit@),
        decreases cs@.len() - i,
    {
        if !crate::text::char_is_hex_digit(cs[i]) {
            ok = false;
        }
        i += 1;
    }
    if ok {
        Ok(())
    } else {
        Err(crate::text::string_of(&chars_of("git tree commit ID must be exactly 40 ASCII hexadecimal characters")))
    }
}

/// Escapes each character as `char::escape_default` does while the text
/// fits in `budget` characters, and ends with `…` where it is cut short.
pub open spec fn escaped_within(cs: Seq<char>, budget: nat) -> Seq<char>
    decreases cs.len(),
{
    if cs.len() == 0 {
        seq![]
    } else {
        let e = crate::render::escape_default(cs[0]);
        if e.len() > budget {
            "…"@
        } else {
            e + escaped_within(cs.drop_first(), (budget - e.len()) as nat)
        }
    }
}

/// Git's error output made safe to show on one line: at most 512 escaped
/// characters.
pub fn sanitize_git_stderr(stderr: &[u8]) -> (r: String)
    ensures
        r@ == escaped_within(lossy_text(stderr@), 512),
        vstd::utf8::valid_utf8(stderr@) ==> r@ == escaped_within(
            vstd::utf8::decode_utf8(stderr@),
            512,
        ),
{
    let text = utf8_text_lossy(stderr);
    let cs = chars_of(text.as_str());
    let mut out: Vec<char> = Vec::new();
    let mut budget: usize = 512;
    let mut i: usize = 0;
    assert(cs@.skip(0) =~= cs@);
    while i < cs.len()
        invariant
            i <= cs@.len(),
            cs@ == text@,
            text@ == lossy_text(stderr@),
            vstd::utf8::valid_utf8(stderr@) ==> text@ == vstd::utf8::decode_utf8(stderr@),
            budget <= 512,
            out@ + escaped_within(cs@.skip(i as int), budget as nat) == escaped_within(cs@, 512),
        decreases cs@.len() - i,
    {
        let mut e: Vec<char> = Vec::new();
        crate::render::push_escape_default(&mut e, cs[i]);
        assert(e@ =~= crate::render::escape_default(cs@[i as int]));
        assert(cs@.skip(i as int).drop_first() =~= cs@.skip(i + 1));
        assert(cs@.skip(i as int)[0] == cs@[i as int]);
        if e.len() > budget {
            proof {
                reveal_strlit("…");
            }
            out.push('…');
            assert(out@ =~= escaped_within(cs@, 512));
            return crate::text::string_of(&out);
        }
        push_chars(&mut out, &e);
        budget = budget - e.len();
        i += 1;
    }
    assert(cs@.skip(i as int) =~= Seq::<char>::empty());
    assert(out@ =~= escaped_within(cs@, 512));
    crate::text::string_of(&out)
}

/// Output read up to one byte past `limit`: refused when it goes past.
pub fn read_bounded(data: Vec<u8>, limit: usize, label: &str) -> (r: Result<Vec<u8>, String>)
    ensures
        data@.len() <= limit ==> (r matches Ok(d) && d@ == data@),
        data@.len() > limit ==> (r matches Err(e) && e@ == label@ + " exceeds "@ + dec(limit as nat)
            + " bytes"@),
{
    if data.len() <= limit {
        Ok(data)
    } else {
        let mut msg: Vec<char> = Vec::new();
        push_str(&mut msg, label);
        push_str(&mut msg, " exceeds ");
        push_dec(&mut msg, limit as u64);
        push_str(&mut msg, " bytes");
        Err(crate::text::string_of(&msg))
    }
}

/// The name of the page of the file at `idx` in the comparison.
pub fn page_name(idx: usize) -> (r: String)
    ensures
        r@ == "file-"@ + dec(idx as nat) + ".html"@,
{
    let mut out: Vec<char> = Vec::new();
    push_str(&mut out, "file-");
    push_dec(&mut out, idx as u64);
    push_str(&mut out, ".html");
    crate::text::string_of(&out)
}

/// For each file of the comparison, the head file it is about: a page is
/// written only for files present in head.
pub fn report_pages(head: &CoverageSnapshot, files: &Vec<FileDelta>) -> (r: Vec<Option<usize>>)
    ensures
        r@.len() == files@.len(),
        forall|k: int|
            0 <= k < files@.len() ==> match #[trigger] r@[k] {
                Some(i) => 0 <= i < head.files@.len() && head.files@[i as int].path@
                    == files@[k].path@,
                None => !crate::model::has_path(head.files@, files@[k].path@),
            },
{
    let mut out: Vec<Option<usize>> = Vec::new();
    let mut k: usize = 0;
    while k < files.len()
        invariant
            k <= files@.len(),
            out@.len() == k,
            forall|j: int|
                0 <= j < k ==> match #[trigger] out@[j] {
                    Some(i) => 0 <= i < head.files@.len() && head.files@[i as int].path@
                        == files@[j].path@,
                    None => !crate::model::has_path(head.files@, files@[j].path@),
                },
        decreases files@.len() - k,
    {
        let want = chars_of(files[k].path.as_str());
        let mut found: Option<usize> = None;
        let mut i: usize = 0;
        while i < head.files.len()
            invariant_except_break
                found is None,
                forall|t: int| 0 <= t < i ==> head.files@[t].path@ != want@,
            invariant
                i <= head.files@.len(),
                k < files@.len(),
                want@ == files@[k as int].path@,
            ensures
                found is None ==> forall|t: int|
                    0 <= t < head.files@.len() ==> head.files@[t].path@ != want@,
                found matches Some(f) ==> 0 <= f < head.files@.len() && head.files@[f as int].path@
                    == want@,
            decreases head.files@.len() - i,
        {
            let p = chars_of(head.files[i].path.as_str());
            if crate::text::seq_eq(&p, &want) {
                found = Some(i);
                break;
            }
            i += 1;
        }
        out.push(found);
        k += 1;
    }
    out
}

} // verus!
