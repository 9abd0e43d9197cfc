//! The per-file coverage table printed after collecting a snapshot.
use vstd::prelude::*;

use crate::model::{CoverageSnapshot, FileCoverage, Measure, files_total};
use crate::pct::pct_text;
use crate::text::{dec, push_chars, push_dec, push_str, utf8_len};

verus! {

pub open spec fn spaces(n: nat) -> Seq<char> {
    Seq::new(n, |i: int| ' ')
}

/// `s` followed by spaces up to `w` characters (`{:<w}`).
pub open spec fn pad_right(s: Seq<char>, w: nat) -> Seq<char> {
    if s.len() >= w {
        s
    } else {
        s + spaces((w - s.len()) as nat)
    }
}

/// Spaces up to `w` characters followed by `s` (`{:>w}`).
pub open spec fn pad_left(s: Seq<char>, w: nat) -> Seq<char> {
    if s.len() >= w {
        s
    } else {
        spaces((w - s.len()) as nat) + s
    }
}

/// One row: the path column, then lines, covered and coverage right-aligned.
pub open spec fn table_row(
    name: Seq<char>,
    lines: Seq<char>,
    covered: Seq<char>,
    coverage: Seq<char>,
    width: nat,
) -> Seq<char> {
    pad_right(name, width) + "  "@ + pad_left(lines, 7) + "  "@ + pad_left(covered, 7) + "  "@
        + pad_left(coverage, 8) + "\n"@
}

/// The widest path in UTF-8 bytes, and at least the width of `TOTAL`.
pub open spec fn path_width(files: Seq<FileCoverage>) -> nat
    decreases files.len(),
{
    if files.len() == 0 {
        5
    } else {
        let w = path_width(files.drop_last());
        let p = utf8_len(files.last().path@);
        if p > w {
            p
        } else {
            w
        }
    }
}

pub open spec fn file_rows(files: Seq<FileCoverage>, width: nat) -> Seq<char>
    decreases files.len(),
{
    if files.len() == 0 {
        seq![]
    } else {
        let f = files.last();
        file_rows(files.drop_last(), width) + table_row(
            f.path@,
            dec(f.executable_count() as nat),
            dec(f.covered_count() as nat),
            pct_text(f.covered_count() as nat, f.executable_count() as nat),
            width,
        )
    }
}

/// The table: a header, one row per file in order, and the totals.
pub open spec fn summary_table(s: CoverageSnapshot) -> Seq<char> {
    let w = path_width(s.files@);
    let exec = files_total(s.files@, Measure::ExecutableLines);
    let cov = files_total(s.files@, Measure::CoveredLines);
    table_row("File"@, "Lines"@, "Covered"@, "Coverage"@, w) + file_rows(s.files@, w) + table_row(
        "TOTAL"@,
        dec(exec as nat),
        dec(cov as nat),
        pct_text(cov as nat, exec as nat),
        w,
    )
}

fn utf8_length(s: &str) -> (r: u128)
    ensures
        r == utf8_len(s@),
{
    let cs = crate::text::chars_of(s);
    let mut n: u128 = 0;
    let mut i: usize = 0;
    while i < cs.len()
        invariant
            i <= cs@.len(),
            cs@ == s@,
            n == utf8_len(cs@.take(i as int)),
            n <= 4 * i,
        decreases cs@.len() - i,
    {
        assert(cs@.take(i + 1).drop_last() =~= cs@.take(i as int));
        n = n + crate::text::char_utf8_width(cs[i]) as u128;
        i += 1;
    }
    assert(cs@.take(i as int) =~= cs@);
    n
}

fn push_spaces(out: &mut Vec<char>, n: u128)
    ensures
        final(out)@ == old(out)@ + spaces(n as nat),
{
    let ghost start = out@;
    let mut i: u128 = 0;
    while i < n
        invariant
            i <= n,
            out@ == start + spaces(i as nat),
        decreases n - i,
    {
        out.push(' ');
        i += 1;
        assert(out@ =~= start + spaces(i as nat));
    }
}

fn push_padded(out: &mut Vec<char>, s: &[char], width: u128, left: bool)
    ensures
        final(out)@ == old(out)@ + if left {
            pad_left(s@, width as nat)
        } else {
            pad_right(s@, width as nat)
        },
{
    let len = s.len() as u128;
    if len >= width {
        push_chars(out, s);
    } else if left {
        push_spaces(out, width - len);
        push_chars(out, s);
    } else {
        push_chars(out, s);
        push_spaces(out, width - len);
    }
    assert(final(out)@ =~= old(out)@ + if left {
        pad_left(s@, width as nat)
    } else {
        pad_right(s@, width as nat)
    });
}

fn push_row(out: &mut Vec<char>, name: &[char], lines: &[char], covered: &[char], coverage: &[char], width: u128)
    ensures
        final(out)@ == old(out)@ + table_row(name@, lines@, covered@, coverage@, width as nat),
{
    push_padded(out, name, width, false);
    push_str(out, "  ");
    push_padded(out, lines, 7, true);
    push_str(out, "  ");
    push_padded(out, covered, 7, true);
    push_str(out, "  ");
    push_padded(out, coverage, 8, true);
    push_str(out, "\n");
    assert(final(out)@ =~= old(out)@ + table_row(name@, lines@, covered@, coverage@, width as nat));
}

fn dec_chars(n: u64) -> (r: Vec<char>)
    ensures
        r@ == dec(n as nat),
{
    let mut v: Vec<char> = Vec::new();
    push_dec(&mut v, n);
    assert(v@ =~= dec(n as nat));
    v
}

fn pct_chars(covered: u64, total: u64) -> (r: Vec<char>)
    ensures
        r@ == pct_text(covered as nat, total as nat),
{
    let mut v: Vec<char> = Vec::new();
    crate::pct::push_pct(&mut v, covered, total);
    assert(v@ =~= pct_text(covered as nat, total as nat));
    v
}

/// The coverage table of a snapshot: one row per file with its executable
/// and covered lines and its coverage, then a `TOTAL` row; the path column
/// is as wide as the longest path in bytes.
pub fn render(snapshot: &CoverageSnapshot) -> (r: String)
    requires
        files_total(snapshot.files@, Measure::ExecutableLines) <= u64::MAX,
        files_total(snapshot.files@, Measure::CoveredLines) <= u64::MAX,
    ensures
        r@ == summary_table(*snapshot),
{
    let files = &snapshot.files;
    let mut width: u128 = 5;
    let mut i: usize = 0;
    while i < files.len()
        invariant
            i <= files@.len(),
            width == path_width(files@.take(i as int)),
        decreases files@.len() - i,
    {
        assert(files@.take(i + 1).drop_last() =~= files@.take(i as int));
        let w = utf8_length(files[i].path.as_str());
        if w > width {
            width = w;
        }
        i += 1;
    }
    assert(files@.take(i as int) =~= files@);
    let mut out: Vec<char> = Vec::new();
    let name = crate::text::chars_of("File");
    let lines = crate::text::chars_of("Lines");
    let covered = crate::text::chars_of("Covered");
    let coverage = crate::text::chars_of("Coverage");
    push_row(&mut out, &name, &lines, &covered, &coverage, width);
    let ghost start = out@;
    let mut j: usize = 0;
    while j < files.len()
        invariant
            j <= files@.len(),
            width == path_width(files@),
            out@ == start + file_rows(files@.take(j as int), width as nat),
        decreases files@.len() - j,
    {
        assert(files@.take(j + 1).drop_last() =~= files@.take(j as int));
        let f = &files[j];
        let exec = f.executable_lines();
        let cov = f.covered_lines();
        let path = crate::text::chars_of(f.path.as_str());
        push_row(
            &mut out,
            &path,
            &dec_chars(exec as u64),
            &dec_chars(cov as u64),
            &pct_chars(cov as u64, exec as u64),
            width,
        );
        j += 1;
        assert(out@ =~= start + file_rows(files@.take(j as int), width as nat));
    }
    assert(files@.take(j as int) =~= files@);
    let exec = snapshot.executable_lines();
    let cov = snapshot.covered_lines();
    let total = crate::text::chars_of("TOTAL");
    push_row(&mut out, &total, &dec_chars(exec), &dec_chars(cov), &pct_chars(cov, exec), width);
    assert(out@ =~= summary_table(*snapshot));
    crate::text::string_of(&out)
}

} // verus!
