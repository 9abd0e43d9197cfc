//! Comparing a head snapshot with a base snapshot, and coverage of the lines a
//! change touched.
use vstd::prelude::*;

use crate::model::{
    BranchHit, CoverageSnapshot, FileCoverage, FunctionHit, LineHit, branch_covered, has_path,
    paths_sorted,
};
use crate::pct::{Delta, coverage_pct, coverage_pct_of, delta_of, percent_delta};
use crate::text::{chars_of, seq_lt};

verus! {

/// The changed lines of one file, ascending and without duplicates.
#[derive(Debug, Clone, PartialEq, Eq)]
pub struct ChangedFile {
    pub path: String,
    pub lines: Vec<u32>,
}

/// Changed (added or modified) line numbers per repo-relative path.
#[derive(Debug, PartialEq, Eq)]
pub struct ChangedLines {
    files: Vec<ChangedFile>,
}

pub open spec fn lines_ascending(s: Seq<u32>) -> bool {
    forall|i: int, j: int| 0 <= i < j < s.len() ==> s[i] < s[j]
}

impl ChangedLines {
    #[verifier::type_invariant]
    spec fn well_formed(self) -> bool {
        &&& forall|i: int, j: int|
            0 <= i < j < self.files@.len() ==> seq_lt(self.files@[i].path@, self.files@[j].path@)
        &&& forall|i: int|
            0 <= i < self.files@.len() ==> lines_ascending(#[trigger] self.files@[i].lines@)
                && self.files@[i].lines@.len() > 0
    }

    /// Whether `line` of `path` is recorded as changed.
    pub closed spec fn contains(self, path: Seq<char>, line: u32) -> bool {
        exists|i: int|
            0 <= i < self.files@.len() && self.files@[i].path@ == path
                && #[trigger] self.files@[i].lines@.contains(line)
    }

    /// Whether any line of `path` is recorded as changed.
    pub closed spec fn has_path(self, path: Seq<char>) -> bool {
        exists|i: int| #![trigger self.files@[i]] 0 <= i < self.files@.len() && self.files@[i].path@ == path
    }

    /// No changed lines at all.
    pub fn new() -> (r: Self)
        ensures
            forall|p: Seq<char>, l: u32| !r.contains(p, l),
            forall|p: Seq<char>| !r.has_path(p),
    {
        ChangedLines { files: Vec::new() }
    }

    fn index_of(&self, path: &[char]) -> (r: (usize, bool))
        ensures
            r.0 <= self.files@.len(),
            forall|i: int| 0 <= i < r.0 ==> seq_lt(self.files@[i].path@, path@),
            forall|i: int| r.0 <= i < self.files@.len() ==> seq_lt(path@, self.files@[i].path@)
                || (i == r.0 && r.1),
            r.1 <==> (r.0 < self.files@.len() && self.files@[r.0 as int].path@ == path@),
    {
        proof {
            use_type_invariant(self);
        }
        let mut p: usize = 0;
        while p < self.files.len()
            invariant
                p <= self.files@.len(),
                forall|i: int, j: int|
                    0 <= i < j < self.files@.len() ==> seq_lt(
                        self.files@[i].path@,
                        self.files@[j].path@,
                    ),
                forall|i: int| 0 <= i < p ==> seq_lt(self.files@[i].path@, path@),
            decreases self.files@.len() - p,
        {
            let fp = chars_of(self.files[p].path.as_str());
            if !crate::text::chars_lt(&fp, path) {
                let same = crate::text::seq_eq(&fp, path);
                proof {
                    crate::text::lemma_seq_lt_trichotomy(fp@, path@);
                }
                assert forall|i: int| p <= i < self.files@.len() implies seq_lt(
                    path@,
                    self.files@[i].path@,
                ) || (i == p && same) by {
                    if i > p {
                        assert(seq_lt(self.files@[p as int].path@, self.files@[i].path@));
                        if !same {
                            crate::text::lemma_seq_lt_transitive(
                                path@,
                                self.files@[p as int].path@,
                                self.files@[i].path@,
                            );
                        }
                    }
                }
                return (p, same);
            }
            p += 1;
        }
        (p, false)
    }

    /// The changed lines of `path`, ascending, if any line of it changed.
    pub fn for_path(&self, path: &str) -> (r: Option<&Vec<u32>>)
        ensures
            match r {
                Some(v) => lines_ascending(v@) && v@.len() > 0 && forall|l: u32|
                    v@.contains(l) <==> self.contains(path@, l),
                None => forall|l: u32| !self.contains(path@, l),
            },
            r is Some <==> self.has_path(path@),
    {
        proof {
            use_type_invariant(self);
        }
        let cs = chars_of(path);
        let (p, found) = self.index_of(&cs);
        if found {
            assert forall|l: u32| self.files@[p as int].lines@.contains(l) <==> self.contains(
                path@,
                l,
            ) by {
                if self.contains(path@, l) {
                    let i = choose|i: int|
                        0 <= i < self.files@.len() && self.files@[i].path@ == path@
                            && self.files@[i].lines@.contains(l);
                    crate::text::lemma_seq_lt_irreflexive(path@);
                }
            }
            assert(self.has_path(path@) == self.has_path(self.files@[p as int].path@));
            Some(&self.files[p].lines)
        } else {
            assert forall|l: u32| !self.contains(path@, l) by {
                if self.contains(path@, l) {
                    let i = choose|i: int|
                        0 <= i < self.files@.len() && self.files@[i].path@ == path@
                            && self.files@[i].lines@.contains(l);
                    crate::text::lemma_seq_lt_irreflexive(path@);
                }
            }
            assert(!self.has_path(path@)) by {
                if self.has_path(path@) {
                    let i = choose|i: int| 0 <= i < self.files@.len() && self.files@[i].path@ == path@;
                    crate::text::lemma_seq_lt_irreflexive(path@);
                }
            }
            None
        }
    }

    /// Whether `line` of `path` is recorded as changed.
    pub fn contains_line(&self, path: &str, line: u32) -> (r: bool)
        ensures
            r == self.contains(path@, line),
    {
        match self.for_path(path) {
            Some(lines) => {
                let mut i: usize = 0;
                while i < lines.len()
                    invariant
                        i <= lines@.len(),
                        forall|l: u32| lines@.contains(l) <==> self.contains(path@, l),
                        forall|j: int| 0 <= j < i ==> lines@[j] != line,
                    decreases lines@.len() - i,
                {
                    if lines[i] == line {
                        assert(lines@.contains(line));
                        return true;
                    }
                    i += 1;
                }
                assert(!lines@.contains(line));
                false
            },
            None => false,
        }
    }

    /// Records `line` of `path` as changed.
    #[verifier::spinoff_prover]
    #[verifier::rlimit(60)]
    pub fn insert(&mut self, path: &str, line: u32)
        ensures
            forall|p: Seq<char>, l: u32|
                final(self).contains(p, l) <==> (old(self).contains(p, l) || (p == path@ && l
                    == line)),
            forall|p: Seq<char>|
                final(self).has_path(p) <==> (old(self).has_path(p) || p == path@),
    {
        proof {
            use_type_invariant(&*self);
        }
        let ghost old_self = *self;
        let cs = chars_of(path);
        let (p, found) = self.index_of(&cs);
        let mut files: Vec<ChangedFile> = Vec::new();
        std::mem::swap(&mut files, &mut self.files);
        let ghost old_files = files@;
        assert(old_files == old_self.files@);
        if found {
            let old_lines = &files[p].lines;
            let lines = insert_line(old_lines, line);
            let entry = ChangedFile { path: files[p].path.clone(), lines };
            files.set(p, entry);
            assert forall|q: Seq<char>, l: u32|
                (exists|i: int|
                    0 <= i < files@.len() && files@[i].path@ == q
                        && #[trigger] files@[i].lines@.contains(l)) <==> (old_self.contains(q, l)
                    || (q == path@ && l == line)) by {
                if old_self.contains(q, l) {
                    let i = choose|i: int|
                        0 <= i < old_files.len() && old_files[i].path@ == q
                            && old_files[i].lines@.contains(l);
                    assert(files@[i].lines@.contains(l));
                }
                if q == path@ && l == line {
                    assert(files@[p as int].lines@.contains(l));
                }
                if exists|i: int|
                    0 <= i < files@.len() && files@[i].path@ == q
                        && #[trigger] files@[i].lines@.contains(l) {
                    let i = choose|i: int|
                        0 <= i < files@.len() && files@[i].path@ == q
                            && files@[i].lines@.contains(l);
                    if i != p {
                        assert(old_files[i].lines@.contains(l));
                    } else if !(q == path@ && l == line) {
                        assert(old_files[i].lines@.contains(l));
                    }
                }
            }
            assert forall|q: Seq<char>|
                (exists|i: int| #![trigger files@[i]] 0 <= i < files@.len() && files@[i].path@ == q) <==> (
                old_self.has_path(q) || q == path@) by {
                if old_self.has_path(q) {
                    let i = choose|i: int| 0 <= i < old_files.len() && old_files[i].path@ == q;
                    assert(files@[i].path@ == q);
                }
                if q == path@ {
                    assert(files@[p as int].path@ == q);
                }
                if exists|i: int| #![trigger files@[i]] 0 <= i < files@.len() && files@[i].path@ == q {
                    let i = choose|i: int| 0 <= i < files@.len() && files@[i].path@ == q;
                    assert(old_files[i].path@ == q);
                }
            }
            assert forall|i: int, j: int| 0 <= i < j < files@.len() implies seq_lt(
                files@[i].path@,
                files@[j].path@,
            ) by {
                assert(seq_lt(old_files[i].path@, old_files[j].path@));
            }
            assert forall|i: int| 0 <= i < files@.len() implies lines_ascending(
                #[trigger] files@[i].lines@,
            ) && files@[i].lines@.len() > 0 by {
                if i != p {
                    assert(files@[i] == old_files[i]);
                }
            }
            let ghost nf = files@;
            self.files = files;
            assert forall|q: Seq<char>| self.has_path(q) <==> (old_self.has_path(q) || q == path@) by {
                if q == path@ {
                    assert(self.files@[p as int].path@ == q);
                }
                if old_self.has_path(q) {
                    let i = choose|i: int| 0 <= i < old_files.len() && old_files[i].path@ == q;
                    assert(nf[i].path@ == q);
                }
                if self.has_path(q) {
                    let i = choose|i: int| 0 <= i < nf.len() && nf[i].path@ == q;
                    assert(old_files[i].path@ == q);
                }
            }
        } else {
            let mut lines: Vec<u32> = Vec::new();
            lines.push(line);
            let entry = ChangedFile { path: path.to_owned(), lines };
            assert(entry.path@ == path@);
            assert(entry.lines@ =~= seq![line]);
            files.insert(p, entry);
            assert forall|q: Seq<char>, l: u32|
                (exists|i: int|
                    0 <= i < files@.len() && files@[i].path@ == q
                        && #[trigger] files@[i].lines@.contains(l)) <==> (old_self.contains(q, l)
                    || (q == path@ && l == line)) by {
                if old_self.contains(q, l) {
                    let i = choose|i: int|
                        0 <= i < old_files.len() && old_files[i].path@ == q
                            && old_files[i].lines@.contains(l);
                    if i < p {
                        assert(files@[i] == old_files[i]);
                    } else {
                        assert(files@[i + 1] == old_files[i]);
                    }
                }
                if q == path@ && l == line {
                    assert(files@[p as int].path@ == q);
                    assert(files@[p as int].lines@[0] == l);
                    assert(files@[p as int].lines@.contains(l));
                }
                if exists|i: int|
                    0 <= i < files@.len() && files@[i].path@ == q
                        && #[trigger] files@[i].lines@.contains(l) {
                    let i = choose|i: int|
                        0 <= i < files@.len() && files@[i].path@ == q
                            && files@[i].lines@.contains(l);
                    if i < p {
                        assert(files@[i] == old_files[i]);
                    } else if i > p {
                        assert(files@[i] == old_files[i - 1]);
                    } else {
                        assert(files@[i].lines@ =~= seq![line]);
                    }
                }
            }
            assert forall|q: Seq<char>|
                (exists|i: int| #![trigger files@[i]] 0 <= i < files@.len() && files@[i].path@ == q) <==> (
                old_self.has_path(q) || q == path@) by {
                if old_self.has_path(q) {
                    let i = choose|i: int| 0 <= i < old_files.len() && old_files[i].path@ == q;
                    if i < p {
                        assert(files@[i] == old_files[i]);
                    } else {
                        assert(files@[i + 1] == old_files[i]);
                    }
                }
                if q == path@ {
                    assert(files@[p as int].path@ == q);
                }
                if exists|i: int| #![trigger files@[i]] 0 <= i < files@.len() && files@[i].path@ == q {
                    let i = choose|i: int| 0 <= i < files@.len() && files@[i].path@ == q;
                    if i < p {
                        assert(files@[i] == old_files[i]);
                    } else if i > p {
                        assert(files@[i] == old_files[i - 1]);
                    }
                }
            }
            assert forall|i: int, j: int| 0 <= i < j < files@.len() implies seq_lt(
                files@[i].path@,
                files@[j].path@,
            ) by {
                if j < p {
                    assert(seq_lt(old_files[i].path@, old_files[j].path@));
                } else if j == p {
                } else if i < p {
                    crate::text::lemma_seq_lt_transitive(
                        old_files[i].path@,
                        path@,
                        old_files[j - 1].path@,
                    );
                } else if i == p {
                } else {
                    assert(seq_lt(old_files[i - 1].path@, old_files[j - 1].path@));
                }
            }
            assert forall|i: int| 0 <= i < files@.len() implies lines_ascending(
                #[trigger] files@[i].lines@,
            ) && files@[i].lines@.len() > 0 by {
                if i < p {
                    assert(files@[i] == old_files[i]);
                } else if i > p {
                    assert(files@[i] == old_files[i - 1]);
                }
            }
            let ghost nf = files@;
            self.files = files;
            assert forall|q: Seq<char>| self.has_path(q) <==> (old_self.has_path(q) || q == path@) by {
                if q == path@ {
                    assert(self.files@[p as int].path@ == q);
                }
                if old_self.has_path(q) {
                    let i = choose|i: int| 0 <= i < old_files.len() && old_files[i].path@ == q;
                    if i < p {
                        assert(nf[i] == old_files[i]);
                    } else {
                        assert(nf[i + 1] == old_files[i]);
                    }
                }
            }
        }
    }
}

/// `lines` with `line` added, still ascending and without duplicates.
fn insert_line(lines: &Vec<u32>, line: u32) -> (r: Vec<u32>)
    requires
        lines_ascending(lines@),
    ensures
        lines_ascending(r@),
        r@.len() > 0,
        forall|l: u32| r@.contains(l) <==> (lines@.contains(l) || l == line),
{
    let mut r: Vec<u32> = Vec::new();
    let mut i: usize = 0;
    while i < lines.len() && lines[i] < line
        invariant
            i <= lines@.len(),
            lines_ascending(lines@),
            r@ == lines@.take(i as int),
            forall|j: int| 0 <= j < i ==> lines@[j] < line,
        decreases lines@.len() - i,
    {
        r.push(lines[i]);
        i += 1;
        assert(r@ =~= lines@.take(i as int));
    }
    if i < lines.len() && lines[i] == line {
        // already present
    } else {
        r.push(line);
    }
    let ghost mid = r@;
    let mut j = if i < lines.len() && lines[i] == line {
        i
    } else {
        i
    };
    while j < lines.len()
        invariant
            i <= j <= lines@.len(),
            lines_ascending(lines@),
            r@ == mid + lines@.subrange(i as int, j as int),
        decreases lines@.len() - j,
    {
        r.push(lines[j]);
        j += 1;
        assert(r@ =~= mid + lines@.subrange(i as int, j as int));
    }
    assert(lines@ =~= lines@.take(i as int) + lines@.subrange(i as int, lines@.len() as int));
    assert forall|a: int, b: int| 0 <= a < b < r@.len() implies r@[a] < r@[b] by {
        if i < lines@.len() && lines@[i as int] == line {
            assert(r@ =~= lines@);
        } else {
            assert(r@ =~= lines@.take(i as int).push(line) + lines@.subrange(
                i as int,
                lines@.len() as int,
            ));
            if a < i && b > i {
                assert(r@[b] == lines@[b - 1]);
            }
            if a == i && b > i {
                assert(r@[b] == lines@[b - 1]);
                assert(lines@[i as int] >= line);
            }
            if a > i {
                assert(r@[a] == lines@[a - 1]);
                assert(r@[b] == lines@[b - 1]);
            }
        }
    }
    assert forall|l: u32| r@.contains(l) <==> (lines@.contains(l) || l == line) by {
        if i < lines@.len() && lines@[i as int] == line {
            assert(r@ =~= lines@);
        } else {
            let rr = lines@.take(i as int).push(line) + lines@.subrange(
                i as int,
                lines@.len() as int,
            );
            assert(r@ =~= rr);
            if lines@.contains(l) {
                let k = choose|k: int| 0 <= k < lines@.len() && lines@[k] == l;
                if k < i {
                    assert(r@[k] == l);
                } else {
                    assert(r@[k + 1] == l);
                }
            }
            if l == line {
                assert(r@[i as int] == l);
            }
            if r@.contains(l) {
                let k = choose|k: int| 0 <= k < r@.len() && r@[k] == l;
                if k < i {
                    assert(lines@[k] == l);
                } else if k > i {
                    assert(lines@[k - 1] == l);
                }
            }
        }
    }
    r
}

/// Version of the stored comparison document.
pub const COMPARISON_SCHEMA_VERSION: u32 = 2;

/// Readers accept the legacy version and every version up to the current one.
pub fn is_supported_comparison_schema_version(version: u32) -> (r: bool)
    ensures
        r == (1 <= version <= COMPARISON_SCHEMA_VERSION),
{
    1 <= version && version <= COMPARISON_SCHEMA_VERSION
}

/// Line counts for one side of a file comparison.
#[derive(Debug, Clone, Copy, PartialEq, Eq, Structural)]
pub struct Counts {
    pub covered: u64,
    pub executable: u64,
}

pub open spec fn counts_of(f: FileCoverage) -> Counts {
    Counts { covered: f.covered_count() as u64, executable: f.executable_count() as u64 }
}

impl Counts {
    fn of(file: &FileCoverage) -> (r: Self)
        ensures
            r == counts_of(*file),
    {
        Counts { covered: file.covered_lines() as u64, executable: file.executable_lines() as u64 }
    }

    /// Covered out of executable lines, in hundredths of a percent.
    pub fn pct(&self) -> (r: Option<u128>)
        ensures
            r == coverage_pct_of(self.covered as nat, self.executable as nat),
    {
        coverage_pct(self.covered, self.executable)
    }
}

/// Branch outcome counts for one side of a file comparison.
#[derive(Debug, Clone, Copy, PartialEq, Eq, Structural)]
pub struct BranchCounts {
    pub covered: u64,
    pub total: u64,
}

/// `None` when the file carries no branch data.
pub open spec fn branch_counts_of(f: FileCoverage) -> Option<BranchCounts> {
    if f.branch_count() > 0 {
        Some(BranchCounts { covered: f.covered_branch_count() as u64, total: f.branch_count() as u64 })
    } else {
        None
    }
}

impl BranchCounts {
    /// Covered out of all branches, in hundredths of a percent.
    pub fn pct(&self) -> (r: Option<u128>)
        ensures
            r == coverage_pct_of(self.covered as nat, self.total as nat),
    {
        coverage_pct(self.covered, self.total)
    }

    /// `None` when the file carries no branch data (older snapshots or
    /// line-only coverage tools).
    fn of(file: &FileCoverage) -> (r: Option<Self>)
        ensures
            r == branch_counts_of(*file),
    {
        if file.total_branches() > 0 {
            Some(
                BranchCounts {
                    covered: file.covered_branches() as u64,
                    total: file.total_branches() as u64,
                },
            )
        } else {
            None
        }
    }
}

/// Diff coverage for one file: changed executable lines and how many of
/// them are covered.
#[derive(Debug, Clone, PartialEq, Eq)]
pub struct DiffCoverage {
    pub relevant: u32,
    pub covered: u32,
    pub uncovered_lines: Vec<u32>,
}

impl DiffCoverage {
    /// Covered out of relevant changed lines, in hundredths of a percent.
    pub fn pct(&self) -> (r: Option<u128>)
        ensures
            r == coverage_pct_of(self.covered as nat, self.relevant as nat),
    {
        coverage_pct(self.covered as u64, self.relevant as u64)
    }
}

/// Branch diff coverage for one file: branches sitting on changed executable
/// lines and how many of them were taken.
#[derive(Debug, Clone, PartialEq, Eq)]
pub struct BranchDiffCoverage {
    pub relevant: u32,
    pub covered: u32,
    /// Changed lines that executed but still have at least one branch that
    /// was never taken.
    pub partial_lines: Vec<u32>,
}

impl BranchDiffCoverage {
    /// Covered out of relevant changed branches, in hundredths of a percent.
    pub fn pct(&self) -> (r: Option<u128>)
        ensures
            r == coverage_pct_of(self.covered as nat, self.relevant as nat),
    {
        coverage_pct(self.covered as u64, self.relevant as u64)
    }

    pub fn is_empty(&self) -> (r: bool)
        ensures
            r == (self.relevant == 0 && self.partial_lines@.len() == 0),
    {
        self.relevant == 0 && self.partial_lines.len() == 0
    }

    /// Nothing relevant, nothing covered, no partial lines.
    pub fn empty() -> (r: Self)
        ensures
            r.relevant == 0,
            r.covered == 0,
            r.partial_lines@ == Seq::<u32>::empty(),
    {
        BranchDiffCoverage { relevant: 0, covered: 0, partial_lines: Vec::new() }
    }
}

// ---------------------------------------------------------------------------
// Diff coverage of one file.
// ---------------------------------------------------------------------------

/// Lines of `s` that the change touched.
pub open spec fn changed_line_count(s: Seq<LineHit>, ch: ChangedLines, path: Seq<char>) -> nat
    decreases s.len(),
{
    if s.len() == 0 {
        0
    } else {
        changed_line_count(s.drop_last(), ch, path) + if ch.contains(path, s.last().line) {
            1nat
        } else {
            0nat
        }
    }
}

/// Touched lines of `s` that executed.
pub open spec fn changed_covered_count(s: Seq<LineHit>, ch: ChangedLines, path: Seq<char>) -> nat
    decreases s.len(),
{
    if s.len() == 0 {
        0
    } else {
        changed_covered_count(s.drop_last(), ch, path) + if ch.contains(path, s.last().line)
            && s.last().hits > 0 {
            1nat
        } else {
            0nat
        }
    }
}

/// Touched lines of `s` that never executed, in order.
pub open spec fn changed_uncovered(s: Seq<LineHit>, ch: ChangedLines, path: Seq<char>) -> Seq<u32>
    decreases s.len(),
{
    if s.len() == 0 {
        seq![]
    } else if ch.contains(path, s.last().line) && s.last().hits == 0 {
        changed_uncovered(s.drop_last(), ch, path).push(s.last().line)
    } else {
        changed_uncovered(s.drop_last(), ch, path)
    }
}

/// What `diff_coverage` computes for `f`.
pub open spec fn diff_coverage_of(d: DiffCoverage, f: FileCoverage, ch: ChangedLines) -> bool {
    &&& d.relevant == changed_line_count(f.line_hits@, ch, f.path@)
    &&& d.covered == changed_covered_count(f.line_hits@, ch, f.path@)
    &&& d.uncovered_lines@ == changed_uncovered(f.line_hits@, ch, f.path@)
}

proof fn lemma_changed_counts_bounded(s: Seq<LineHit>, ch: ChangedLines, path: Seq<char>)
    ensures
        changed_covered_count(s, ch, path) <= changed_line_count(s, ch, path) <= s.len(),
    decreases s.len(),
{
    if s.len() > 0 {
        lemma_changed_counts_bounded(s.drop_last(), ch, path);
    }
}

fn diff_coverage(file: &FileCoverage, changed: &ChangedLines) -> (d: DiffCoverage)
    requires
        file.line_hits@.len() <= u32::MAX,
    ensures
        diff_coverage_of(d, *file, *changed),
{
    let lines = changed.for_path(file.path.as_str());
    let mut relevant: u32 = 0;
    let mut covered: u32 = 0;
    let mut uncovered_lines: Vec<u32> = Vec::new();
    let mut i: usize = 0;
    while i < file.line_hits.len()
        invariant
            i <= file.line_hits@.len() <= u32::MAX,
            match lines {
                Some(v) => forall|l: u32| v@.contains(l) <==> changed.contains(file.path@, l),
                None => forall|l: u32| !changed.contains(file.path@, l),
            },
            relevant == changed_line_count(file.line_hits@.take(i as int), *changed, file.path@),
            covered == changed_covered_count(file.line_hits@.take(i as int), *changed, file.path@),
            uncovered_lines@ == changed_uncovered(file.line_hits@.take(i as int), *changed, file.path@),
        decreases file.line_hits@.len() - i,
    {
        let lh = file.line_hits[i];
        assert(file.line_hits@.take(i + 1).drop_last() =~= file.line_hits@.take(i as int));
        proof {
            lemma_changed_counts_bounded(file.line_hits@.take(i as int), *changed, file.path@);
        }
        let touched = match lines {
            Some(v) => contains_u32(v, lh.line),
            None => false,
        };
        if touched {
            relevant += 1;
            if lh.hits > 0 {
                covered += 1;
            } else {
                uncovered_lines.push(lh.line);
            }
        }
        i += 1;
    }
    assert(file.line_hits@.take(i as int) =~= file.line_hits@);
    DiffCoverage { relevant, covered, uncovered_lines }
}

fn contains_u32(v: &Vec<u32>, x: u32) -> (r: bool)
    ensures
        r == v@.contains(x),
{
    let mut i: usize = 0;
    while i < v.len()
        invariant
            i <= v@.len(),
            forall|j: int| 0 <= j < i ==> v@[j] != x,
        decreases v@.len() - i,
    {
        if v[i] == x {
            assert(v@[i as int] == x);
            return true;
        }
        i += 1;
    }
    false
}

/// Branches of `s` on touched lines.
pub open spec fn changed_branch_count(s: Seq<BranchHit>, ch: ChangedLines, path: Seq<char>) -> nat
    decreases s.len(),
{
    if s.len() == 0 {
        0
    } else {
        changed_branch_count(s.drop_last(), ch, path) + if ch.contains(path, s.last().line) {
            1nat
        } else {
            0nat
        }
    }
}

/// Branches of `s` on touched lines that were taken.
pub open spec fn changed_branch_covered(s: Seq<BranchHit>, ch: ChangedLines, path: Seq<char>) -> nat
    decreases s.len(),
{
    if s.len() == 0 {
        0
    } else {
        changed_branch_covered(s.drop_last(), ch, path) + if ch.contains(path, s.last().line)
            && branch_covered(s.last()) {
            1nat
        } else {
            0nat
        }
    }
}

pub open spec fn line_executed(s: Seq<LineHit>, line: u32) -> bool {
    exists|i: int| 0 <= i < s.len() && s[i].line == line && s[i].hits > 0
}

/// A touched line that executed but has a branch that was never taken.
pub open spec fn is_partial_line(f: FileCoverage, ch: ChangedLines, line: u32) -> bool {
    &&& ch.contains(f.path@, line)
    &&& line_executed(f.line_hits@, line)
    &&& exists|i: int|
        0 <= i < f.branches@.len() && f.branches@[i].line == line && !branch_covered(
            #[trigger] f.branches@[i],
        )
}

/// What `branch_diff_coverage` computes for `f`.
pub open spec fn branch_diff_of(d: BranchDiffCoverage, f: FileCoverage, ch: ChangedLines) -> bool {
    &&& d.relevant == changed_branch_count(f.branches@, ch, f.path@)
    &&& d.covered == changed_branch_covered(f.branches@, ch, f.path@)
    &&& lines_ascending(d.partial_lines@)
    &&& forall|l: u32| d.partial_lines@.contains(l) <==> is_partial_line(f, ch, l)
}

proof fn lemma_changed_branches_bounded(s: Seq<BranchHit>, ch: ChangedLines, path: Seq<char>)
    ensures
        changed_branch_covered(s, ch, path) <= changed_branch_count(s, ch, path) <= s.len(),
    decreases s.len(),
{
    if s.len() > 0 {
        lemma_changed_branches_bounded(s.drop_last(), ch, path);
    }
}

fn executed(lines: &Vec<LineHit>, line: u32) -> (r: bool)
    ensures
        r == line_executed(lines@, line),
{
    let mut i: usize = 0;
    while i < lines.len()
        invariant
            i <= lines@.len(),
            forall|j: int| 0 <= j < i ==> !(lines@[j].line == line && lines@[j].hits > 0),
        decreases lines@.len() - i,
    {
        if lines[i].line == line && lines[i].hits > 0 {
            return true;
        }
        i += 1;
    }
    false
}

/// Branches on changed executable lines. `partial_lines` lists changed lines
/// that executed but still miss at least one branch outcome; lines that never
/// executed are already reported as uncovered lines.
fn branch_diff_coverage(file: &FileCoverage, changed: &ChangedLines) -> (d: BranchDiffCoverage)
    requires
        file.branches@.len() <= u32::MAX,
    ensures
        branch_diff_of(d, *file, *changed),
{
    let lines = changed.for_path(file.path.as_str());
    let mut relevant: u32 = 0;
    let mut covered: u32 = 0;
    let mut partial: Vec<u32> = Vec::new();
    let mut i: usize = 0;
    while i < file.branches.len()
        invariant
            i <= file.branches@.len() <= u32::MAX,
            match lines {
                Some(v) => forall|l: u32| v@.contains(l) <==> changed.contains(file.path@, l),
                None => forall|l: u32| !changed.contains(file.path@, l),
            },
            relevant == changed_branch_count(file.branches@.take(i as int), *changed, file.path@),
            covered == changed_branch_covered(file.branches@.take(i as int), *changed, file.path@),
            lines_ascending(partial@),
            forall|l: u32|
                partial@.contains(l) <==> (changed.contains(file.path@, l) && line_executed(
                    file.line_hits@,
                    l,
                ) && exists|j: int|
                    0 <= j < i && file.branches@[j].line == l && !branch_covered(
                        #[trigger] file.branches@[j],
                    )),
        decreases file.branches@.len() - i,
    {
        let b = &file.branches[i];
        assert(file.branches@.take(i + 1).drop_last() =~= file.branches@.take(i as int));
        proof {
            lemma_changed_branches_bounded(file.branches@.take(i as int), *changed, file.path@);
        }
        let touched = match lines {
            Some(v) => contains_u32(v, b.line),
            None => false,
        };
        let ghost old_partial = partial@;
        if touched {
            relevant += 1;
            if b.is_covered() {
                covered += 1;
            } else if executed(&file.line_hits, b.line) {
                partial = insert_line(&partial, b.line);
            }
        }
        assert forall|l: u32|
            partial@.contains(l) <==> (changed.contains(file.path@, l) && line_executed(
                file.line_hits@,
                l,
            ) && exists|j: int|
                0 <= j < i + 1 && file.branches@[j].line == l && !branch_covered(
                    #[trigger] file.branches@[j],
                )) by {
            if exists|j: int|
                0 <= j < i + 1 && file.branches@[j].line == l && !branch_covered(
                    #[trigger] file.branches@[j],
                ) {
                let j = choose|j: int|
                    0 <= j < i + 1 && file.branches@[j].line == l && !branch_covered(
                        #[trigger] file.branches@[j],
                    );
                if j < i && changed.contains(file.path@, l) && line_executed(file.line_hits@, l) {
                    assert(old_partial.contains(l));
                }
            }
            if old_partial.contains(l) {
                let j = choose|j: int|
                    0 <= j < i && file.branches@[j].line == l && !branch_covered(
                        #[trigger] file.branches@[j],
                    );
                assert(0 <= j < i + 1);
            }
            if partial@.contains(l) && !old_partial.contains(l) {
                assert(file.branches@[i as int].line == l);
            }
        }
        i += 1;
    }
    assert(file.branches@.take(i as int) =~= file.branches@);
    BranchDiffCoverage { relevant, covered, partial_lines: partial }
}

// ---------------------------------------------------------------------------
// Per-file deltas and the comparison.
// ---------------------------------------------------------------------------

#[derive(Debug, Clone, PartialEq, Eq)]
pub struct FileDelta {
    pub path: String,
    /// `None` when the file does not exist in the base snapshot (new file).
    pub base: Option<Counts>,
    /// `None` when the file was removed in head.
    pub head: Option<Counts>,
    pub diff: DiffCoverage,
    pub base_branches: Option<BranchCounts>,
    pub head_branches: Option<BranchCounts>,
    pub branch_diff: BranchDiffCoverage,
}

impl FileDelta {
    /// The change of the file's line coverage in percentage points, exactly:
    /// `None` unless both sides exist and have executable lines.
    pub fn delta_pct(&self) -> (r: Option<Delta>)
        ensures
            match (self.head, self.base) {
                (Some(h), Some(b)) => if h.executable == 0 || b.executable == 0 {
                    r is None
                } else {
                    r matches Some(d) && delta_of(
                        d,
                        h.covered as nat,
                        h.executable as nat,
                        b.covered as nat,
                        b.executable as nat,
                    )
                },
                _ => r is None,
            },
    {
        match (self.head, self.base) {
            (Some(h), Some(b)) => if h.executable == 0 || b.executable == 0 {
                None
            } else {
                Some(percent_delta(h.covered, h.executable, b.covered, b.executable))
            },
            _ => None,
        }
    }
}

#[derive(Debug, Clone, PartialEq, Eq)]
pub struct Comparison {
    pub base_available: bool,
    pub files: Vec<FileDelta>,
}

/// The file recorded at `path`, if any.
pub open spec fn file_at(files: Seq<FileCoverage>, path: Seq<char>) -> Option<FileCoverage> {
    if has_path(files, path) {
        Some(files[choose|i: int| 0 <= i < files.len() && files[i].path@ == path])
    } else {
        None
    }
}

pub open spec fn base_file_at(base: Option<CoverageSnapshot>, path: Seq<char>) -> Option<FileCoverage> {
    match base {
        Some(b) => file_at(b.files@, path),
        None => None,
    }
}

/// The delta of a file present in head, against its base file if any.
pub open spec fn head_delta(
    d: FileDelta,
    hf: FileCoverage,
    bf: Option<FileCoverage>,
    ch: ChangedLines,
) -> bool {
    &&& d.path@ == hf.path@
    &&& d.head == Some(counts_of(hf))
    &&& d.head_branches == branch_counts_of(hf)
    &&& diff_coverage_of(d.diff, hf, ch)
    &&& branch_diff_of(d.branch_diff, hf, ch)
    &&& match bf {
        Some(b) => d.base == Some(counts_of(b)) && d.base_branches == branch_counts_of(b),
        None => d.base is None && d.base_branches is None,
    }
}

/// The delta of a file removed in head.
pub open spec fn removed_delta(d: FileDelta, bf: FileCoverage) -> bool {
    &&& d.path@ == bf.path@
    &&& d.base == Some(counts_of(bf))
    &&& d.base_branches == branch_counts_of(bf)
    &&& d.head is None
    &&& d.head_branches is None
    &&& d.diff.relevant == 0 && d.diff.covered == 0 && d.diff.uncovered_lines@.len() == 0
    &&& d.branch_diff.relevant == 0 && d.branch_diff.covered == 0
        && d.branch_diff.partial_lines@.len() == 0
}

pub open spec fn deltas_sorted(s: Seq<FileDelta>) -> bool {
    forall|i: int, j: int| 0 <= i < j < s.len() ==> seq_lt(s[i].path@, s[j].path@)
}

/// The delta for `d`'s path, from the files of `base` and `head`.
pub open spec fn delta_correct(
    d: FileDelta,
    base: Option<CoverageSnapshot>,
    head: CoverageSnapshot,
    ch: ChangedLines,
) -> bool {
    match file_at(head.files@, d.path@) {
        Some(hf) => head_delta(d, hf, base_file_at(base, d.path@), ch),
        None => match base_file_at(base, d.path@) {
            Some(bf) => removed_delta(d, bf),
            None => false,
        },
    }
}

/// `files` holds one delta per path of `head` or `base`, in path order.
pub open spec fn comparison_files(
    files: Seq<FileDelta>,
    base: Option<CoverageSnapshot>,
    head: CoverageSnapshot,
    ch: ChangedLines,
) -> bool {
    &&& deltas_sorted(files)
    &&& forall|k: int| 0 <= k < files.len() ==> delta_correct(#[trigger] files[k], base, head, ch)
    &&& forall|p: Seq<char>|
        (has_path(head.files@, p) || base_file_at(base, p) is Some) ==> exists|k: int|
            0 <= k < files.len() && #[trigger] files[k].path@ == p
}

/// The limits under which the `u32` record counters do not overflow.
pub open spec fn countable(s: CoverageSnapshot) -> bool {
    forall|i: int|
        0 <= i < s.files@.len() ==> (#[trigger] s.files@[i]).line_hits@.len() <= u32::MAX
            && s.files@[i].branches@.len() <= u32::MAX
}

proof fn lemma_file_at(files: Seq<FileCoverage>, i: int)
    requires
        paths_sorted(files),
        0 <= i < files.len(),
    ensures
        file_at(files, files[i].path@) == Some(files[i]),
{
    assert(has_path(files, files[i].path@));
    let c = choose|c: int| 0 <= c < files.len() && files[c].path@ == files[i].path@;
    if c != i {
        crate::text::lemma_seq_lt_irreflexive(files[i].path@);
        if c < i {
            assert(seq_lt(files[c].path@, files[i].path@));
        } else {
            assert(seq_lt(files[i].path@, files[c].path@));
        }
    }
}

fn copy_counts_lines(v: &Vec<u32>) -> (r: Vec<u32>)
    ensures
        r@ == v@,
{
    let mut r: Vec<u32> = Vec::new();
    let mut i: usize = 0;
    while i < v.len()
        invariant
            i <= v@.len(),
            r@ == v@.take(i as int),
        decreases v@.len() - i,
    {
        r.push(v[i]);
        i += 1;
        assert(r@ =~= v@.take(i as int));
    }
    assert(v@.take(i as int) =~= v@);
    r
}

fn head_file_delta(hf: &FileCoverage, bf: Option<&FileCoverage>, changed: &ChangedLines) -> (d: FileDelta)
    requires
        hf.line_hits@.len() <= u32::MAX,
        hf.branches@.len() <= u32::MAX,
    ensures
        head_delta(
            d,
            *hf,
            match bf {
                Some(b) => Some(*b),
                None => None,
            },
            *changed,
        ),
{
    let (base, base_branches) = match bf {
        Some(b) => (Some(Counts::of(b)), BranchCounts::of(b)),
        None => (None, None),
    };
    FileDelta {
        path: hf.path.clone(),
        base,
        head: Some(Counts::of(hf)),
        diff: diff_coverage(hf, changed),
        base_branches,
        head_branches: BranchCounts::of(hf),
        branch_diff: branch_diff_coverage(hf, changed),
    }
}

fn removed_file_delta(bf: &FileCoverage) -> (d: FileDelta)
    ensures
        removed_delta(d, *bf),
{
    FileDelta {
        path: bf.path.clone(),
        base: Some(Counts::of(bf)),
        head: None,
        diff: DiffCoverage { relevant: 0, covered: 0, uncovered_lines: Vec::new() },
        base_branches: BranchCounts::of(bf),
        head_branches: None,
        branch_diff: BranchDiffCoverage::empty(),
    }
}

#[verifier::spinoff_prover]
#[verifier::rlimit(60)]
fn build_comparison(
    base: Option<&CoverageSnapshot>,
    head: &CoverageSnapshot,
    changed: &ChangedLines,
) -> (r: Comparison)
    requires
        head.well_formed(),
        countable(*head),
        base matches Some(b) ==> b.well_formed(),
    ensures
        r.base_available == base is Some,
        comparison_files(
            r.files@,
            match base {
                Some(b) => Some(*b),
                None => None,
            },
            *head,
            *changed,
        ),
{
    let ghost gbase = match base {
        Some(b) => Some(*b),
        None => None,
    };
    let no_files: Vec<FileCoverage> = Vec::new();
    let bfiles: &Vec<FileCoverage> = match base {
        Some(b) => &b.files,
        None => &no_files,
    };
    let hfiles = &head.files;
    assert(paths_sorted(bfiles@));
    assert(forall|p: Seq<char>| #[trigger] base_file_at(gbase, p) == file_at(bfiles@, p));
    let mut files: Vec<FileDelta> = Vec::new();
    let mut i: usize = 0;
    let mut j: usize = 0;
    while i < hfiles.len() || j < bfiles.len()
        invariant
            i <= hfiles@.len(),
            j <= bfiles@.len(),
            hfiles@ == head.files@,
            paths_sorted(hfiles@),
            paths_sorted(bfiles@),
            countable(*head),
            forall|p: Seq<char>| #[trigger] base_file_at(gbase, p) == file_at(bfiles@, p),
            deltas_sorted(files@),
            forall|k: int| 0 <= k < files@.len() ==> delta_correct(#[trigger] files@[k], gbase, *head, *changed),
            files@.len() > 0 && i < hfiles@.len() ==> seq_lt(files@.last().path@, hfiles@[i as int].path@),
            files@.len() > 0 && j < bfiles@.len() ==> seq_lt(files@.last().path@, bfiles@[j as int].path@),
            i < hfiles@.len() ==> forall|b: int| 0 <= b < j ==> seq_lt(bfiles@[b].path@, hfiles@[i as int].path@),
            j < bfiles@.len() ==> forall|h: int| 0 <= h < i ==> seq_lt(hfiles@[h].path@, bfiles@[j as int].path@),
            forall|h: int| #![trigger hfiles@[h]] 0 <= h < i ==> exists|k: int| 0 <= k < files@.len() && #[trigger] files@[k].path@ == hfiles@[h].path@,
            forall|b: int| #![trigger bfiles@[b]] 0 <= b < j ==> exists|k: int| 0 <= k < files@.len() && #[trigger] files@[k].path@ == bfiles@[b].path@,
        decreases hfiles@.len() + bfiles@.len() - i - j,
    {
        let ghost old_files = files@;
        let head_first = if i < hfiles.len() && j < bfiles.len() {
            let hp = chars_of(hfiles[i].path.as_str());
            let bp = chars_of(bfiles[j].path.as_str());
            if crate::text::chars_lt(&hp, &bp) {
                1u8
            } else if crate::text::seq_eq(&hp, &bp) {
                0u8
            } else {
                2u8
            }
        } else if i < hfiles.len() {
            1u8
        } else {
            2u8
        };
        if head_first == 1 {
            // A file only head has.
            let hf = &hfiles[i];
            proof {
                lemma_file_at(hfiles@, i as int);
                assert(hfiles@[i as int].line_hits@.len() <= u32::MAX);
                assert(!has_path(bfiles@, hf.path@)) by {
                    if has_path(bfiles@, hf.path@) {
                        let b = choose|b: int| 0 <= b < bfiles@.len() && bfiles@[b].path@ == hf.path@;
                        crate::text::lemma_seq_lt_irreflexive(hf.path@);
                        if b >= j {
                            if b > j {
                                assert(seq_lt(bfiles@[j as int].path@, bfiles@[b].path@));
                                crate::text::lemma_seq_lt_transitive(hf.path@, bfiles@[j as int].path@, bfiles@[b].path@);
                            }
                        }
                    }
                }
            }
            let d = head_file_delta(hf, None, changed);
            files.push(d);
            proof {
                assert(files@[files@.len() - 1] == d);
                assert(delta_correct(d, gbase, *head, *changed));
                if i + 1 < hfiles@.len() {
                    assert(seq_lt(hfiles@[i as int].path@, hfiles@[i + 1].path@));
                    assert forall|b: int| 0 <= b < j implies seq_lt(bfiles@[b].path@, hfiles@[i + 1].path@) by {
                        crate::text::lemma_seq_lt_transitive(bfiles@[b].path@, hfiles@[i as int].path@, hfiles@[i + 1].path@);
                    }
                }
                assert forall|h: int| #![trigger hfiles@[h]] 0 <= h < i + 1 implies exists|k: int| 0 <= k < files@.len() && #[trigger] files@[k].path@ == hfiles@[h].path@ by {
                    if h < i {
                        let k = choose|k: int| 0 <= k < old_files.len() && old_files[k].path@ == hfiles@[h].path@;
                        assert(files@[k] == old_files[k]);
                    } else {
                        assert(files@[files@.len() - 1].path@ == hfiles@[h].path@);
                    }
                }
                assert forall|b: int| #![trigger bfiles@[b]] 0 <= b < j implies exists|k: int| 0 <= k < files@.len() && #[trigger] files@[k].path@ == bfiles@[b].path@ by {
                    let k = choose|k: int| 0 <= k < old_files.len() && old_files[k].path@ == bfiles@[b].path@;
                    assert(files@[k] == old_files[k]);
                }
                assert forall|a: int, b: int| 0 <= a < b < files@.len() implies seq_lt(files@[a].path@, files@[b].path@) by {
                    if b == files@.len() - 1 && a < b {
                        if a < old_files.len() - 1 {
                            assert(seq_lt(old_files[a].path@, old_files.last().path@));
                            crate::text::lemma_seq_lt_transitive(old_files[a].path@, old_files.last().path@, d.path@);
                        }
                    } else {
                        assert(seq_lt(old_files[a].path@, old_files[b].path@));
                    }
                }
            }
            i += 1;
        } else if head_first == 2 {
            // A file only base has.
            let bf = &bfiles[j];
            proof {
                lemma_file_at(bfiles@, j as int);
                assert(!has_path(hfiles@, bf.path@)) by {
                    if has_path(hfiles@, bf.path@) {
                        let h = choose|h: int| 0 <= h < hfiles@.len() && hfiles@[h].path@ == bf.path@;
                        crate::text::lemma_seq_lt_irreflexive(bf.path@);
                        if i < hfiles@.len() {
                            crate::text::lemma_seq_lt_trichotomy(hfiles@[i as int].path@, bf.path@);
                        }
                        if h > i {
                            assert(seq_lt(hfiles@[i as int].path@, hfiles@[h].path@));
                            crate::text::lemma_seq_lt_transitive(bf.path@, hfiles@[i as int].path@, hfiles@[h].path@);
                        }
                    }
                }
            }
            let d = removed_file_delta(bf);
            files.push(d);
            proof {
                assert(files@[files@.len() - 1] == d);
                assert(delta_correct(d, gbase, *head, *changed));
                if i < hfiles@.len() {
                    crate::text::lemma_seq_lt_trichotomy(hfiles@[i as int].path@, bf.path@);
                }
                if j + 1 < bfiles@.len() {
                    assert(seq_lt(bfiles@[j as int].path@, bfiles@[j + 1].path@));
                    assert forall|h: int| 0 <= h < i implies seq_lt(hfiles@[h].path@, bfiles@[j + 1].path@) by {
                        crate::text::lemma_seq_lt_transitive(hfiles@[h].path@, bfiles@[j as int].path@, bfiles@[j + 1].path@);
                    }
                }
                assert forall|b: int| #![trigger bfiles@[b]] 0 <= b < j + 1 implies exists|k: int| 0 <= k < files@.len() && #[trigger] files@[k].path@ == bfiles@[b].path@ by {
                    if b < j {
                        let k = choose|k: int| 0 <= k < old_files.len() && old_files[k].path@ == bfiles@[b].path@;
                        assert(files@[k] == old_files[k]);
                    } else {
                        assert(files@[files@.len() - 1].path@ == bfiles@[b].path@);
                    }
                }
                assert forall|h: int| #![trigger hfiles@[h]] 0 <= h < i implies exists|k: int| 0 <= k < files@.len() && #[trigger] files@[k].path@ == hfiles@[h].path@ by {
                    let k = choose|k: int| 0 <= k < old_files.len() && old_files[k].path@ == hfiles@[h].path@;
                    assert(files@[k] == old_files[k]);
                }
                assert forall|a: int, b: int| 0 <= a < b < files@.len() implies seq_lt(files@[a].path@, files@[b].path@) by {
                    if b == files@.len() - 1 && a < b {
                        if a < old_files.len() - 1 {
                            assert(seq_lt(old_files[a].path@, old_files.last().path@));
                            crate::text::lemma_seq_lt_transitive(old_files[a].path@, old_files.last().path@, d.path@);
                        }
                    } else {
                        assert(seq_lt(old_files[a].path@, old_files[b].path@));
                    }
                }
            }
            j += 1;
        } else {
            // A file both sides have.
            let hf = &hfiles[i];
            let bf = &bfiles[j];
            proof {
                lemma_file_at(hfiles@, i as int);
                lemma_file_at(bfiles@, j as int);
                assert(hfiles@[i as int].line_hits@.len() <= u32::MAX);
            }
            let d = head_file_delta(hf, Some(bf), changed);
            files.push(d);
            proof {
                assert(files@[files@.len() - 1] == d);
                assert(delta_correct(d, gbase, *head, *changed));
                if i + 1 < hfiles@.len() {
                    assert(seq_lt(hfiles@[i as int].path@, hfiles@[i + 1].path@));
                    assert forall|b: int| 0 <= b < j + 1 implies seq_lt(bfiles@[b].path@, hfiles@[i + 1].path@) by {
                        if b < j {
                            crate::text::lemma_seq_lt_transitive(bfiles@[b].path@, hfiles@[i as int].path@, hfiles@[i + 1].path@);
                        }
                    }
                }
                if j + 1 < bfiles@.len() {
                    assert(seq_lt(bfiles@[j as int].path@, bfiles@[j + 1].path@));
                    assert forall|h: int| 0 <= h < i + 1 implies seq_lt(hfiles@[h].path@, bfiles@[j + 1].path@) by {
                        if h < i {
                            crate::text::lemma_seq_lt_transitive(hfiles@[h].path@, bfiles@[j as int].path@, bfiles@[j + 1].path@);
                        }
                    }
                }
                assert forall|h: int| #![trigger hfiles@[h]] 0 <= h < i + 1 implies exists|k: int| 0 <= k < files@.len() && #[trigger] files@[k].path@ == hfiles@[h].path@ by {
                    if h < i {
                        let k = choose|k: int| 0 <= k < old_files.len() && old_files[k].path@ == hfiles@[h].path@;
                        assert(files@[k] == old_files[k]);
                    } else {
                        assert(files@[files@.len() - 1].path@ == hfiles@[h].path@);
                    }
                }
                assert forall|b: int| #![trigger bfiles@[b]] 0 <= b < j + 1 implies exists|k: int| 0 <= k < files@.len() && #[trigger] files@[k].path@ == bfiles@[b].path@ by {
                    if b < j {
                        let k = choose|k: int| 0 <= k < old_files.len() && old_files[k].path@ == bfiles@[b].path@;
                        assert(files@[k] == old_files[k]);
                    } else {
                        assert(files@[files@.len() - 1].path@ == bfiles@[b].path@);
                    }
                }
                assert forall|a: int, b: int| 0 <= a < b < files@.len() implies seq_lt(files@[a].path@, files@[b].path@) by {
                    if b == files@.len() - 1 && a < b {
                        if a < old_files.len() - 1 {
                            assert(seq_lt(old_files[a].path@, old_files.last().path@));
                            crate::text::lemma_seq_lt_transitive(old_files[a].path@, old_files.last().path@, d.path@);
                        }
                    } else {
                        assert(seq_lt(old_files[a].path@, old_files[b].path@));
                    }
                }
            }
            i += 1;
            j += 1;
        }
    }
    assert forall|p: Seq<char>| (has_path(head.files@, p) || base_file_at(gbase, p) is Some) implies exists|k: int|
        0 <= k < files@.len() && #[trigger] files@[k].path@ == p by {
        if has_path(head.files@, p) {
            let h = choose|h: int| 0 <= h < hfiles@.len() && hfiles@[h].path@ == p;
            assert(exists|k: int| 0 <= k < files@.len() && #[trigger] files@[k].path@ == hfiles@[h].path@);
        } else {
            assert(has_path(bfiles@, p));
            let b = choose|b: int| 0 <= b < bfiles@.len() && bfiles@[b].path@ == p;
            assert(exists|k: int| 0 <= k < files@.len() && #[trigger] files@[k].path@ == bfiles@[b].path@);
        }
    }
    Comparison { base_available: base.is_some(), files }
}

// ---------------------------------------------------------------------------
// Snapshots whose files come in any order.
// ---------------------------------------------------------------------------

/// No two files share a path.
pub open spec fn distinct_paths(files: Seq<FileCoverage>) -> bool {
    forall|a: int, b: int| 0 <= a < b < files.len() ==> files[a].path@ != files[b].path@
}

/// `a` and `b` hold the same path, language and records.
pub open spec fn same_file(a: FileCoverage, b: FileCoverage) -> bool {
    &&& a.path@ == b.path@
    &&& a.language == b.language
    &&& a.line_hits@ == b.line_hits@
    &&& a.branches@ == b.branches@
    &&& a.functions@ == b.functions@
}

/// Some file of `s` is the same as `f`.
pub open spec fn has_same(s: Seq<FileCoverage>, f: FileCoverage) -> bool {
    exists|k: int| 0 <= k < s.len() && #[trigger] same_file(s[k], f)
}

/// `a` holds the files of `b`, in some order.
pub open spec fn same_files(a: Seq<FileCoverage>, b: Seq<FileCoverage>) -> bool {
    &&& forall|i: int| 0 <= i < a.len() ==> #[trigger] has_same(b, a[i])
    &&& forall|j: int| 0 <= j < b.len() ==> #[trigger] has_same(a, b[j])
}

fn copy_file(f: &FileCoverage) -> (r: FileCoverage)
    ensures
        same_file(r, *f),
{
    let no_lines: Vec<LineHit> = Vec::new();
    let no_branches: Vec<BranchHit> = Vec::new();
    let no_functions: Vec<FunctionHit> = Vec::new();
    let line_hits = crate::model::copy_lines(&f.line_hits, &no_lines);
    let branches = crate::model::copy_branches(&f.branches, &no_branches);
    let functions = crate::model::copy_functions(&f.functions, &no_functions);
    assert(line_hits@ =~= f.line_hits@);
    assert(branches@ =~= f.branches@);
    assert(functions@ =~= f.functions@);
    FileCoverage { path: f.path.clone(), language: f.language, line_hits, branches, functions }
}

proof fn lemma_same_symmetric(a: FileCoverage, b: FileCoverage)
    requires
        same_file(a, b),
    ensures
        same_file(b, a),
{
}

/// Inserting `c` at `k`, past every path below it and before the first
/// above it, keeps the paths sorted.
proof fn lemma_insert_sorted(r: Seq<FileCoverage>, k: int, c: FileCoverage)
    requires
        paths_sorted(r),
        0 <= k <= r.len(),
        forall|a: int| 0 <= a < k ==> seq_lt(#[trigger] r[a].path@, c.path@),
        k < r.len() ==> seq_lt(c.path@, r[k].path@),
    ensures
        paths_sorted(r.insert(k, c)),
{
    let n = r.insert(k, c);
    assert forall|a: int, b: int| 0 <= a < b < n.len() implies seq_lt(n[a].path@, n[b].path@) by {
        if b < k {
            assert(n[a] == r[a] && n[b] == r[b]);
        } else if b == k {
            assert(n[a] == r[a]);
        } else if a == k {
            assert(n[b] == r[b - 1]);
            if b - 1 > k {
                crate::text::lemma_seq_lt_transitive(c.path@, r[k].path@, r[b - 1].path@);
            }
        } else if a < k {
            assert(n[a] == r[a] && n[b] == r[b - 1]);
            crate::text::lemma_seq_lt_transitive(r[a].path@, c.path@, r[k].path@);
            if b - 1 > k {
                crate::text::lemma_seq_lt_transitive(r[a].path@, r[k].path@, r[b - 1].path@);
            }
        } else {
            assert(n[a] == r[a - 1] && n[b] == r[b - 1]);
        }
    }
}

/// Inserting a copy of `files[i]` into copies of `files[..i]` gives copies
/// of `files[..i + 1]`.
proof fn lemma_insert_same(r: Seq<FileCoverage>, k: int, c: FileCoverage, files: Seq<FileCoverage>, i: int)
    requires
        0 <= k <= r.len(),
        0 <= i < files.len(),
        same_file(c, files[i]),
        same_files(r, files.take(i)),
    ensures
        same_files(r.insert(k, c), files.take(i + 1)),
{
    let n = r.insert(k, c);
    let pre = files.take(i);
    let post = files.take(i + 1);
    assert forall|a: int| 0 <= a < n.len() implies #[trigger] has_same(post, n[a]) by {
        if a == k {
            assert(post[i] == files[i]);
            lemma_same_symmetric(c, files[i]);
            assert(same_file(post[i], n[a]));
        } else {
            let x = if a < k { a } else { a - 1 };
            assert(n[a] == r[x]);
            assert(has_same(pre, r[x]));
            let j = choose|j: int| 0 <= j < pre.len() && #[trigger] same_file(pre[j], r[x]);
            assert(post[j] == pre[j]);
            assert(same_file(post[j], n[a]));
        }
    }
    assert forall|j: int| 0 <= j < post.len() implies #[trigger] has_same(n, post[j]) by {
        if j == i {
            assert(post[j] == files[i]);
            assert(same_file(n[k], post[j]));
        } else {
            assert(post[j] == pre[j]);
            assert(has_same(r, pre[j]));
            let x = choose|x: int| 0 <= x < r.len() && #[trigger] same_file(r[x], pre[j]);
            if x < k {
                assert(n[x] == r[x]);
                assert(same_file(n[x], post[j]));
            } else {
                assert(n[x + 1] == r[x]);
                assert(same_file(n[x + 1], post[j]));
            }
        }
    }
}

/// A copy of `files[i]` has a path apart from every copy of `files[..i]`.
proof fn lemma_new_path(r: Seq<FileCoverage>, c: FileCoverage, files: Seq<FileCoverage>, i: int)
    requires
        0 <= i < files.len(),
        distinct_paths(files),
        same_file(c, files[i]),
        same_files(r, files.take(i)),
    ensures
        forall|a: int| 0 <= a < r.len() ==> (#[trigger] r[a]).path@ != c.path@,
{
    let pre = files.take(i);
    assert forall|a: int| 0 <= a < r.len() implies (#[trigger] r[a]).path@ != c.path@ by {
        assert(has_same(pre, r[a]));
        let j = choose|j: int| 0 <= j < pre.len() && #[trigger] same_file(pre[j], r[a]);
        assert(pre[j] == files[j]);
        assert(files[j].path@ != files[i].path@);
    }
}

/// Copies of `files` in path order.
fn files_by_path(files: &Vec<FileCoverage>) -> (r: Vec<FileCoverage>)
    requires
        distinct_paths(files@),
    ensures
        paths_sorted(r@),
        same_files(r@, files@),
{
    let mut r: Vec<FileCoverage> = Vec::new();
    let mut i: usize = 0;
    assert(same_files(r@, files@.take(0)));
    while i < files.len()
        invariant
            i <= files@.len(),
            distinct_paths(files@),
            paths_sorted(r@),
            same_files(r@, files@.take(i as int)),
        decreases files@.len() - i,
    {
        let c = copy_file(&files[i]);
        let key = chars_of(c.path.as_str());
        let mut k: usize = 0;
        loop
            invariant
                k <= r@.len(),
                key@ == c.path@,
                forall|a: int| 0 <= a < k ==> !seq_lt(c.path@, #[trigger] r@[a].path@),
            ensures
                k <= r@.len(),
                forall|a: int| 0 <= a < k ==> !seq_lt(c.path@, #[trigger] r@[a].path@),
                k < r@.len() ==> seq_lt(c.path@, r@[k as int].path@),
            decreases r@.len() - k,
        {
            if k == r.len() {
                break;
            }
            let other = chars_of(r[k].path.as_str());
            if crate::text::chars_lt(&key, &other) {
                break;
            }
            k += 1;
        }
        proof {
            lemma_new_path(r@, c, files@, i as int);
            assert forall|a: int| 0 <= a < k implies seq_lt(#[trigger] r@[a].path@, c.path@) by {
                crate::text::lemma_seq_lt_trichotomy(r@[a].path@, c.path@);
            }
            lemma_insert_sorted(r@, k as int, c);
            lemma_insert_same(r@, k as int, c, files@, i as int);
        }
        r.insert(k, c);
        i += 1;
    }
    assert(files@.take(files@.len() as int) =~= files@);
    r
}

/// A copy of `s` with its files in path order.
fn snapshot_by_path(s: &CoverageSnapshot) -> (r: CoverageSnapshot)
    requires
        distinct_paths(s.files@),
    ensures
        r.well_formed(),
        same_files(r.files@, s.files@),
{
    CoverageSnapshot {
        schema_version: s.schema_version,
        repo: s.repo.clone(),
        commit_sha: s.commit_sha.clone(),
        branch: s.branch.clone(),
        pr_number: s.pr_number,
        generated_at: s.generated_at.clone(),
        tool_versions: s.tool_versions.clone(),
        files: files_by_path(&s.files),
    }
}

proof fn lemma_same_files_refl(a: Seq<FileCoverage>)
    ensures
        same_files(a, a),
{
    assert forall|i: int| 0 <= i < a.len() implies #[trigger] has_same(a, a[i]) by {
        assert(same_file(a[i], a[i]));
    }
}

proof fn lemma_file_at_same(a: Seq<FileCoverage>, b: Seq<FileCoverage>, p: Seq<char>)
    requires
        distinct_paths(a),
        distinct_paths(b),
        same_files(a, b),
    ensures
        has_path(a, p) == has_path(b, p),
        has_path(a, p) ==> same_file(file_at(a, p)->Some_0, file_at(b, p)->Some_0),
{
    if has_path(a, p) {
        let ci = choose|i: int| 0 <= i < a.len() && a[i].path@ == p;
        assert(has_same(b, a[ci]));
        let j = choose|j: int| 0 <= j < b.len() && #[trigger] same_file(b[j], a[ci]);
        assert(has_path(b, p));
        let cj = choose|j: int| 0 <= j < b.len() && b[j].path@ == p;
        if j != cj {
            if j < cj {
                assert(b[j].path@ != b[cj].path@);
            } else {
                assert(b[cj].path@ != b[j].path@);
            }
        }
        assert(file_at(a, p) == Some(a[ci]));
        assert(file_at(b, p) == Some(b[cj]));
    }
    if has_path(b, p) {
        let cj = choose|j: int| 0 <= j < b.len() && b[j].path@ == p;
        assert(has_same(a, b[cj]));
        let i = choose|i: int| 0 <= i < a.len() && #[trigger] same_file(a[i], b[cj]);
        assert(a[i].path@ == p);
        assert(has_path(a, p));
    }
}

proof fn lemma_sorted_distinct(a: Seq<FileCoverage>)
    requires
        paths_sorted(a),
    ensures
        distinct_paths(a),
{
    assert forall|x: int, y: int| 0 <= x < y < a.len() implies a[x].path@ != a[y].path@ by {
        crate::text::lemma_seq_lt_irreflexive(a[x].path@);
    }
}

/// Both snapshots or neither, the first one in path order and holding the
/// files of the second.
pub open spec fn ordered_copy(x: Option<CoverageSnapshot>, y: Option<CoverageSnapshot>) -> bool {
    match (x, y) {
        (Some(s), Some(t)) => s.well_formed() && distinct_paths(t.files@) && same_files(
            s.files@,
            t.files@,
        ),
        (None, None) => true,
        _ => false,
    }
}

proof fn lemma_counts_same(f: FileCoverage, g: FileCoverage, ch: ChangedLines)
    requires
        same_file(f, g),
    ensures
        counts_of(f) == counts_of(g),
        branch_counts_of(f) == branch_counts_of(g),
        forall|d: DiffCoverage| diff_coverage_of(d, f, ch) == #[trigger] diff_coverage_of(d, g, ch),
        forall|d: BranchDiffCoverage|
            branch_diff_of(d, f, ch) == #[trigger] branch_diff_of(d, g, ch),
{
    assert forall|d: BranchDiffCoverage| branch_diff_of(d, f, ch) == #[trigger] branch_diff_of(
        d,
        g,
        ch,
    ) by {
        if branch_diff_of(d, f, ch) {
            assert forall|l: u32| d.partial_lines@.contains(l) <==> is_partial_line(g, ch, l) by {
                assert(d.partial_lines@.contains(l) <==> is_partial_line(f, ch, l));
            }
        }
        if branch_diff_of(d, g, ch) {
            assert forall|l: u32| d.partial_lines@.contains(l) <==> is_partial_line(f, ch, l) by {
                assert(d.partial_lines@.contains(l) <==> is_partial_line(g, ch, l));
            }
        }
    }
}

proof fn lemma_delta_same(
    d: FileDelta,
    bs: Option<CoverageSnapshot>,
    b: Option<CoverageSnapshot>,
    hs: CoverageSnapshot,
    h: CoverageSnapshot,
    ch: ChangedLines,
)
    requires
        delta_correct(d, bs, hs, ch),
        ordered_copy(Some(hs), Some(h)),
        ordered_copy(bs, b),
    ensures
        delta_correct(d, b, h, ch),
{
    let p = d.path@;
    lemma_sorted_distinct(hs.files@);
    lemma_file_at_same(hs.files@, h.files@, p);
    if let (Some(x), Some(y)) = (bs, b) {
        lemma_sorted_distinct(x.files@);
        lemma_file_at_same(x.files@, y.files@, p);
        if has_path(x.files@, p) {
            lemma_counts_same(file_at(x.files@, p)->Some_0, file_at(y.files@, p)->Some_0, ch);
        }
    }
    if has_path(hs.files@, p) {
        lemma_counts_same(file_at(hs.files@, p)->Some_0, file_at(h.files@, p)->Some_0, ch);
    }
}

proof fn lemma_comparison_same(
    files: Seq<FileDelta>,
    bs: Option<CoverageSnapshot>,
    b: Option<CoverageSnapshot>,
    hs: CoverageSnapshot,
    h: CoverageSnapshot,
    ch: ChangedLines,
)
    requires
        comparison_files(files, bs, hs, ch),
        ordered_copy(Some(hs), Some(h)),
        ordered_copy(bs, b),
    ensures
        comparison_files(files, b, h, ch),
{
    lemma_sorted_distinct(hs.files@);
    if let (Some(x), Some(y)) = (bs, b) {
        lemma_sorted_distinct(x.files@);
    }
    assert forall|k: int| 0 <= k < files.len() implies delta_correct(#[trigger] files[k], b, h, ch) by {
        lemma_delta_same(files[k], bs, b, hs, h, ch);
    }
    assert forall|p: Seq<char>|
        (has_path(h.files@, p) || base_file_at(b, p) is Some) implies exists|k: int|
            0 <= k < files.len() && #[trigger] files[k].path@ == p by {
        lemma_file_at_same(hs.files@, h.files@, p);
        if let (Some(x), Some(y)) = (bs, b) {
            lemma_file_at_same(x.files@, y.files@, p);
        }
    }
}

proof fn lemma_countable_same(a: CoverageSnapshot, b: CoverageSnapshot)
    requires
        same_files(a.files@, b.files@),
        countable(b),
    ensures
        countable(a),
{
    assert forall|i: int| 0 <= i < a.files@.len() implies (#[trigger] a.files@[i]).line_hits@.len()
        <= u32::MAX && a.files@[i].branches@.len() <= u32::MAX by {
        assert(has_same(b.files@, a.files@[i]));
        let j = choose|j: int| 0 <= j < b.files@.len() && #[trigger] same_file(b.files@[j], a.files@[i]);
    }
}

/// Compares a head snapshot with an optional base snapshot: one delta per
/// path of either, in path order, with diff coverage of the changed lines.
/// The files of a snapshot may come in any order, each path once; ones not
/// in path order are compared through an ordered copy.
pub fn compare(base: Option<&CoverageSnapshot>, head: &CoverageSnapshot, changed: &ChangedLines) -> (r: Comparison)
    requires
        distinct_paths(head.files@),
        countable(*head),
        base matches Some(b) ==> distinct_paths(b.files@),
    ensures
        r.base_available == base is Some,
        comparison_files(
            r.files@,
            match base {
                Some(b) => Some(*b),
                None => None,
            },
            *head,
            *changed,
        ),
        counts_total(head_side(r.files@)).0 == crate::model::files_total(
            head.files@,
            crate::model::Measure::CoveredLines,
        ),
        counts_total(head_side(r.files@)).1 == crate::model::files_total(
            head.files@,
            crate::model::Measure::ExecutableLines,
        ),
{
    let owned_head: Option<CoverageSnapshot> = if is_comparable(head) {
        None
    } else {
        Some(snapshot_by_path(head))
    };
    let owned_base: Option<CoverageSnapshot> = match base {
        Some(b) => if is_comparable(b) {
            None
        } else {
            Some(snapshot_by_path(b))
        },
        None => None,
    };
    let hs: &CoverageSnapshot = match &owned_head {
        Some(x) => x,
        None => head,
    };
    let bs: Option<&CoverageSnapshot> = match base {
        Some(b) => match &owned_base {
            Some(x) => Some(x),
            None => Some(b),
        },
        None => None,
    };
    let ghost bs_view: Option<CoverageSnapshot> = match bs {
        Some(x) => Some(*x),
        None => None,
    };
    let ghost b_view: Option<CoverageSnapshot> = match base {
        Some(x) => Some(*x),
        None => None,
    };
    proof {
        lemma_same_files_refl(head.files@);
        if let Some(b) = base {
            lemma_same_files_refl(b.files@);
        }
        lemma_countable_same(*hs, *head);
        assert(ordered_copy(Some(*hs), Some(*head)));
        assert(ordered_copy(bs_view, b_view));
    }
    let r = build_comparison(bs, hs, changed);
    proof {
        lemma_comparison_same(r.files@, bs_view, b_view, *hs, *head, *changed);
        crate::laws::law_head_totals(r.files@, b_view, *head, *changed);
    }
    r
}

// ---------------------------------------------------------------------------
// Totals over a comparison.
// ---------------------------------------------------------------------------

/// Whether a snapshot read from outside has the form that
/// `CoverageSnapshot::new` gives: its files sorted by path without
/// duplicates, and none with more records than the counters hold.
pub fn is_comparable(s: &CoverageSnapshot) -> (r: bool)
    ensures
        r == (s.well_formed() && countable(*s)),
{
    let files = &s.files;
    let mut i: usize = 0;
    while i < files.len()
        invariant
            i <= files@.len(),
            files@ == s.files@,
            forall|a: int, b: int| 0 <= a < b < i ==> seq_lt(files@[a].path@, files@[b].path@),
            forall|a: int|
                0 <= a < i ==> (#[trigger] files@[a]).line_hits@.len() <= u32::MAX
                    && files@[a].branches@.len() <= u32::MAX,
        decreases files@.len() - i,
    {
        if files[i].line_hits.len() > 4294967295 || files[i].branches.len() > 4294967295 {
            assert(!countable(*s)) by {
                assert(files@[i as int].line_hits@.len() > u32::MAX || files@[i as int].branches@.len()
                    > u32::MAX);
            }
            return false;
        }
        if i > 0 {
            let prev = chars_of(files[i - 1].path.as_str());
            let cur = chars_of(files[i].path.as_str());
            if !crate::text::chars_lt(&prev, &cur) {
                assert(!s.well_formed());
                return false;
            }
            assert forall|a: int, b: int| 0 <= a < b < i + 1 implies seq_lt(
                files@[a].path@,
                files@[b].path@,
            ) by {
                if b == i && a < i - 1 {
                    crate::text::lemma_seq_lt_transitive(
                        files@[a].path@,
                        files@[i - 1].path@,
                        files@[b].path@,
                    );
                }
            }
        }
        i += 1;
    }
    true
}

/// Summed (covered, executable) of the present counts.
pub open spec fn counts_total(s: Seq<Option<Counts>>) -> (int, int)
    decreases s.len(),
{
    if s.len() == 0 {
        (0, 0)
    } else {
        let (c, e) = counts_total(s.drop_last());
        match s.last() {
            Some(x) => (c + x.covered, e + x.executable),
            None => (c, e),
        }
    }
}

/// Summed (covered, total) of the present branch counts; `None` when none is present.
pub open spec fn branch_counts_total(s: Seq<Option<BranchCounts>>) -> Option<(int, int)>
    decreases s.len(),
{
    if s.len() == 0 {
        None
    } else {
        let acc = branch_counts_total(s.drop_last());
        match s.last() {
            Some(x) => match acc {
                Some((c, t)) => Some((c + x.covered, t + x.total)),
                None => Some((x.covered as int, x.total as int)),
            },
            None => acc,
        }
    }
}

/// Summed (relevant, covered) of the files' diff coverage.
pub open spec fn diff_total(s: Seq<FileDelta>) -> (int, int)
    decreases s.len(),
{
    if s.len() == 0 {
        (0, 0)
    } else {
        let (r, c) = diff_total(s.drop_last());
        (r + s.last().diff.relevant, c + s.last().diff.covered)
    }
}

/// Summed (relevant, covered) of the files' branch diff coverage.
pub open spec fn branch_diff_total(s: Seq<FileDelta>) -> (int, int)
    decreases s.len(),
{
    if s.len() == 0 {
        (0, 0)
    } else {
        let (r, c) = branch_diff_total(s.drop_last());
        (r + s.last().branch_diff.relevant, c + s.last().branch_diff.covered)
    }
}

pub open spec fn head_side(s: Seq<FileDelta>) -> Seq<Option<Counts>> {
    s.map_values(|d: FileDelta| d.head)
}

pub open spec fn base_side(s: Seq<FileDelta>) -> Seq<Option<Counts>> {
    s.map_values(|d: FileDelta| d.base)
}

pub open spec fn head_branch_side(s: Seq<FileDelta>) -> Seq<Option<BranchCounts>> {
    s.map_values(|d: FileDelta| d.head_branches)
}

pub open spec fn base_branch_side(s: Seq<FileDelta>) -> Seq<Option<BranchCounts>> {
    s.map_values(|d: FileDelta| d.base_branches)
}

/// The present counts of one side of the deltas.
pub open spec fn side_of(files: Seq<FileDelta>, head: bool) -> Seq<Option<Counts>> {
    if head {
        head_side(files)
    } else {
        base_side(files)
    }
}

/// Whether the summed counts of one side (head or base) fit in a `u64`,
/// as the totals require.
pub fn side_totals_fit(files: &Vec<FileDelta>, head: bool) -> (r: bool)
    ensures
        r == (counts_total(side_of(files@, head)).0 <= u64::MAX && counts_total(
            side_of(files@, head),
        ).1 <= u64::MAX),
{
    let ghost sd = side_of(files@, head);
    let mut covered: u128 = 0;
    let mut executable: u128 = 0;
    let mut i: usize = 0;
    while i < files.len()
        invariant
            i <= files@.len(),
            sd == side_of(files@, head),
            sd.len() == files@.len(),
            covered == counts_total(sd.take(i as int)).0,
            executable == counts_total(sd.take(i as int)).1,
            covered <= u64::MAX,
            executable <= u64::MAX,
        decreases files@.len() - i,
    {
        assert(sd.take(i + 1).drop_last() =~= sd.take(i as int));
        let c = if head {
            files[i].head
        } else {
            files[i].base
        };
        assert(sd[i as int] == c);
        if let Some(x) = c {
            covered = covered + x.covered as u128;
            executable = executable + x.executable as u128;
        }
        if covered > 18446744073709551615u128 || executable > 18446744073709551615u128 {
            proof {
                lemma_counts_total_prefix(sd, i + 1);
            }
            return false;
        }
        i += 1;
    }
    assert(sd.take(i as int) =~= sd);
    true
}

/// Whether the summed diff coverage fits in a `u32`, as the totals
/// require.
pub fn diff_totals_fit(files: &Vec<FileDelta>) -> (r: bool)
    ensures
        r == (diff_total(files@).0 <= u32::MAX && diff_total(files@).1 <= u32::MAX),
{
    let mut relevant: u64 = 0;
    let mut covered: u64 = 0;
    let mut i: usize = 0;
    while i < files.len()
        invariant
            i <= files@.len(),
            relevant == diff_total(files@.take(i as int)).0,
            covered == diff_total(files@.take(i as int)).1,
            relevant <= u32::MAX,
            covered <= u32::MAX,
        decreases files@.len() - i,
    {
        assert(files@.take(i + 1).drop_last() =~= files@.take(i as int));
        relevant = relevant + files[i].diff.relevant as u64;
        covered = covered + files[i].diff.covered as u64;
        if relevant > 4294967295 || covered > 4294967295 {
            proof {
                lemma_diff_total_prefix(files@, i + 1);
            }
            return false;
        }
        i += 1;
    }
    assert(files@.take(i as int) =~= files@);
    true
}

proof fn lemma_counts_total_prefix(s: Seq<Option<Counts>>, k: int)
    requires
        0 <= k <= s.len(),
    ensures
        0 <= counts_total(s.take(k)).0 <= counts_total(s).0,
        0 <= counts_total(s.take(k)).1 <= counts_total(s).1,
    decreases s.len(),
{
    if k < s.len() {
        assert(s.drop_last().take(k) =~= s.take(k));
        lemma_counts_total_prefix(s.drop_last(), k);
    } else {
        assert(s.take(k) =~= s);
        if s.len() > 0 {
            lemma_counts_total_prefix(s.drop_last(), k - 1);
            assert(s.drop_last().take(k - 1) =~= s.drop_last());
        }
    }
}

proof fn lemma_branch_total_prefix(s: Seq<Option<BranchCounts>>, k: int)
    requires
        0 <= k <= s.len(),
    ensures
        branch_counts_total(s.take(k)) matches Some((c, t)) ==> branch_counts_total(s) matches Some(
            (c2, t2),
        ) && 0 <= c <= c2 && 0 <= t <= t2,
    decreases s.len(),
{
    if k < s.len() {
        assert(s.drop_last().take(k) =~= s.take(k));
        lemma_branch_total_prefix(s.drop_last(), k);
    } else {
        assert(s.take(k) =~= s);
        if s.len() > 0 {
            lemma_branch_total_prefix(s.drop_last(), k - 1);
            assert(s.drop_last().take(k - 1) =~= s.drop_last());
        }
    }
}

proof fn lemma_diff_total_prefix(s: Seq<FileDelta>, k: int)
    requires
        0 <= k <= s.len(),
    ensures
        0 <= diff_total(s.take(k)).0 <= diff_total(s).0,
        0 <= diff_total(s.take(k)).1 <= diff_total(s).1,
        0 <= branch_diff_total(s.take(k)).0 <= branch_diff_total(s).0,
        0 <= branch_diff_total(s.take(k)).1 <= branch_diff_total(s).1,
    decreases s.len(),
{
    if k < s.len() {
        assert(s.drop_last().take(k) =~= s.take(k));
        lemma_diff_total_prefix(s.drop_last(), k);
    } else {
        assert(s.take(k) =~= s);
        if s.len() > 0 {
            lemma_diff_total_prefix(s.drop_last(), k - 1);
            assert(s.drop_last().take(k - 1) =~= s.drop_last());
        }
    }
}

fn sum_counts(files: &Vec<FileDelta>, head: bool) -> (r: Counts)
    requires
        ({
            let t = counts_total(
                if head {
                    head_side(files@)
                } else {
                    base_side(files@)
                },
            );
            t.0 <= u64::MAX && t.1 <= u64::MAX
        }),
    ensures
        ({
            let t = counts_total(
                if head {
                    head_side(files@)
                } else {
                    base_side(files@)
                },
            );
            r.covered == t.0 && r.executable == t.1
        }),
{
    let ghost side = if head {
        head_side(files@)
    } else {
        base_side(files@)
    };
    let mut covered: u64 = 0;
    let mut executable: u64 = 0;
    let mut i: usize = 0;
    while i < files.len()
        invariant
            i <= files@.len(),
            side.len() == files@.len(),
            side == (if head {
                head_side(files@)
            } else {
                base_side(files@)
            }),
            counts_total(side).0 <= u64::MAX,
            counts_total(side).1 <= u64::MAX,
            covered == counts_total(side.take(i as int)).0,
            executable == counts_total(side.take(i as int)).1,
        decreases files@.len() - i,
    {
        proof {
            assert(side.take(i + 1).drop_last() =~= side.take(i as int));
            lemma_counts_total_prefix(side, i + 1);
        }
        let c = if head {
            files[i].head
        } else {
            files[i].base
        };
        assert(side.take(i + 1).last() == c);
        match c {
            Some(x) => {
                covered = covered + x.covered;
                executable = executable + x.executable;
            },
            None => {},
        }
        i += 1;
    }
    assert(side.take(i as int) =~= side);
    Counts { covered, executable }
}

fn sum_branch_counts(files: &Vec<FileDelta>, head: bool) -> (r: Option<BranchCounts>)
    requires
        branch_counts_total(
            if head {
                head_branch_side(files@)
            } else {
                base_branch_side(files@)
            },
        ) matches Some((c, t)) ==> c <= u64::MAX && t <= u64::MAX,
    ensures
        match branch_counts_total(
            if head {
                head_branch_side(files@)
            } else {
                base_branch_side(files@)
            },
        ) {
            Some((c, t)) => r == Some(BranchCounts { covered: c as u64, total: t as u64 }),
            None => r is None,
        },
{
    let ghost side = if head {
        head_branch_side(files@)
    } else {
        base_branch_side(files@)
    };
    let mut acc: Option<BranchCounts> = None;
    let mut i: usize = 0;
    while i < files.len()
        invariant
            i <= files@.len(),
            side.len() == files@.len(),
            side == (if head {
                head_branch_side(files@)
            } else {
                base_branch_side(files@)
            }),
            branch_counts_total(side) matches Some((c, t)) ==> c <= u64::MAX && t <= u64::MAX,
            match branch_counts_total(side.take(i as int)) {
                Some((c, t)) => acc == Some(BranchCounts { covered: c as u64, total: t as u64 }),
                None => acc is None,
            },
        decreases files@.len() - i,
    {
        proof {
            assert(side.take(i + 1).drop_last() =~= side.take(i as int));
            lemma_branch_total_prefix(side, i + 1);
        }
        let c = if head {
            files[i].head_branches
        } else {
            files[i].base_branches
        };
        assert(side.take(i + 1).last() == c);
        assert(branch_counts_total(side.take(i + 1)) matches Some((c1, t1)) ==> 0 <= c1 <= u64::MAX
            && 0 <= t1 <= u64::MAX);
        assert(branch_counts_total(side.take(i as int)) matches Some((c0, t0)) ==> 0 <= c0 && 0
            <= t0) by {
            lemma_branch_total_prefix(side.take(i + 1), i as int);
            assert(side.take(i + 1).take(i as int) =~= side.take(i as int));
        }
        match c {
            Some(x) => {
                let base = match acc {
                    Some(a) => a,
                    None => BranchCounts { covered: 0, total: 0 },
                };
                acc = Some(
                    BranchCounts { covered: base.covered + x.covered, total: base.total + x.total },
                );
            },
            None => {},
        }
        i += 1;
    }
    assert(side.take(i as int) =~= side);
    acc
}

/// The line coverage delta of a comparison: none without a base or when a
/// side has no executable lines, else the delta of head against base.
pub open spec fn line_delta_of(r: Option<Delta>, c: Comparison) -> bool {
    let h = counts_total(head_side(c.files@));
    let b = counts_total(base_side(c.files@));
    if !c.base_available || h.1 == 0 || b.1 == 0 {
        r is None
    } else {
        r matches Some(d) && delta_of(d, h.0 as nat, h.1 as nat, b.0 as nat, b.1 as nat)
    }
}

/// The branch coverage delta of a comparison: none without a base or when
/// a side has no branches, else the delta of head against base.
pub open spec fn branch_delta_of(r: Option<Delta>, c: Comparison) -> bool {
    match (branch_counts_total(head_branch_side(c.files@)), branch_counts_total(
        base_branch_side(c.files@),
    )) {
        (Some((hc, ht)), Some((bc, bt))) => if !c.base_available || ht == 0 || bt == 0 {
            r is None
        } else {
            r matches Some(d) && delta_of(d, hc as nat, ht as nat, bc as nat, bt as nat)
        },
        _ => r is None,
    }
}

impl Comparison {
    pub fn head_totals(&self) -> (r: Counts)
        requires
            counts_total(head_side(self.files@)).0 <= u64::MAX,
            counts_total(head_side(self.files@)).1 <= u64::MAX,
        ensures
            r.covered == counts_total(head_side(self.files@)).0,
            r.executable == counts_total(head_side(self.files@)).1,
    {
        sum_counts(&self.files, true)
    }

    pub fn base_totals(&self) -> (r: Counts)
        requires
            counts_total(base_side(self.files@)).0 <= u64::MAX,
            counts_total(base_side(self.files@)).1 <= u64::MAX,
        ensures
            r.covered == counts_total(base_side(self.files@)).0,
            r.executable == counts_total(base_side(self.files@)).1,
    {
        sum_counts(&self.files, false)
    }

    /// Summed diff coverage; `uncovered_lines` is left empty.
    pub fn diff_totals(&self) -> (r: DiffCoverage)
        requires
            diff_total(self.files@).0 <= u32::MAX,
            diff_total(self.files@).1 <= u32::MAX,
        ensures
            r.relevant == diff_total(self.files@).0,
            r.covered == diff_total(self.files@).1,
            r.uncovered_lines@.len() == 0,
    {
        let mut relevant: u32 = 0;
        let mut covered: u32 = 0;
        let mut i: usize = 0;
        while i < self.files.len()
            invariant
                i <= self.files@.len(),
                diff_total(self.files@).0 <= u32::MAX,
                diff_total(self.files@).1 <= u32::MAX,
                relevant == diff_total(self.files@.take(i as int)).0,
                covered == diff_total(self.files@.take(i as int)).1,
            decreases self.files@.len() - i,
        {
            proof {
                assert(self.files@.take(i + 1).drop_last() =~= self.files@.take(i as int));
                lemma_diff_total_prefix(self.files@, i + 1);
            }
            relevant = relevant + self.files[i].diff.relevant;
            covered = covered + self.files[i].diff.covered;
            i += 1;
        }
        assert(self.files@.take(i as int) =~= self.files@);
        DiffCoverage { relevant, covered, uncovered_lines: Vec::new() }
    }

    /// `None` when no head file carries branch data.
    pub fn head_branch_totals(&self) -> (r: Option<BranchCounts>)
        requires
            branch_counts_total(head_branch_side(self.files@)) matches Some((c, t)) ==> c
                <= u64::MAX && t <= u64::MAX,
        ensures
            match branch_counts_total(head_branch_side(self.files@)) {
                Some((c, t)) => r == Some(BranchCounts { covered: c as u64, total: t as u64 }),
                None => r is None,
            },
    {
        sum_branch_counts(&self.files, true)
    }

    /// `None` when no base file carries branch data.
    pub fn base_branch_totals(&self) -> (r: Option<BranchCounts>)
        requires
            branch_counts_total(base_branch_side(self.files@)) matches Some((c, t)) ==> c
                <= u64::MAX && t <= u64::MAX,
        ensures
            match branch_counts_total(base_branch_side(self.files@)) {
                Some((c, t)) => r == Some(BranchCounts { covered: c as u64, total: t as u64 }),
                None => r is None,
            },
    {
        sum_branch_counts(&self.files, false)
    }

    /// The change of total line coverage in percentage points, exactly:
    /// `None` without a base, or when either side has no executable lines.
    pub fn delta_pct(&self) -> (r: Option<Delta>)
        requires
            counts_total(head_side(self.files@)).0 <= u64::MAX,
            counts_total(head_side(self.files@)).1 <= u64::MAX,
            counts_total(base_side(self.files@)).0 <= u64::MAX,
            counts_total(base_side(self.files@)).1 <= u64::MAX,
        ensures
            line_delta_of(r, *self),
    {
        if !self.base_available {
            return None;
        }
        let h = self.head_totals();
        let b = self.base_totals();
        if h.executable == 0 || b.executable == 0 {
            return None;
        }
        Some(percent_delta(h.covered, h.executable, b.covered, b.executable))
    }

    /// The change of total branch coverage in percentage points, exactly:
    /// `None` without a base, or when either side has no branches.
    pub fn branch_delta_pct(&self) -> (r: Option<Delta>)
        requires
            branch_counts_total(head_branch_side(self.files@)) matches Some((c, t)) ==> c
                <= u64::MAX && t <= u64::MAX,
            branch_counts_total(base_branch_side(self.files@)) matches Some((c, t)) ==> c
                <= u64::MAX && t <= u64::MAX,
        ensures
            branch_delta_of(r, *self),
    {
        proof {
            let hs = head_branch_side(self.files@);
            let bs = base_branch_side(self.files@);
            lemma_branch_total_prefix(hs, hs.len() as int);
            lemma_branch_total_prefix(bs, bs.len() as int);
            assert(hs.take(hs.len() as int) =~= hs);
            assert(bs.take(bs.len() as int) =~= bs);
        }
        if !self.base_available {
            return None;
        }
        let h = match self.head_branch_totals() {
            Some(h) => h,
            None => return None,
        };
        let b = match self.base_branch_totals() {
            Some(b) => b,
            None => return None,
        };
        if h.total == 0 || b.total == 0 {
            return None;
        }
        Some(percent_delta(h.covered, h.total, b.covered, b.total))
    }

    /// Summed branch diff coverage; `partial_lines` is left empty.
    pub fn branch_diff_totals(&self) -> (r: BranchDiffCoverage)
        requires
            branch_diff_total(self.files@).0 <= u32::MAX,
            branch_diff_total(self.files@).1 <= u32::MAX,
        ensures
            r.relevant == branch_diff_total(self.files@).0,
            r.covered == branch_diff_total(self.files@).1,
            r.partial_lines@.len() == 0,
    {
        let mut relevant: u32 = 0;
        let mut covered: u32 = 0;
        let mut i: usize = 0;
        while i < self.files.len()
            invariant
                i <= self.files@.len(),
                branch_diff_total(self.files@).0 <= u32::MAX,
                branch_diff_total(self.files@).1 <= u32::MAX,
                relevant == branch_diff_total(self.files@.take(i as int)).0,
                covered == branch_diff_total(self.files@.take(i as int)).1,
            decreases self.files@.len() - i,
        {
            proof {
                assert(self.files@.take(i + 1).drop_last() =~= self.files@.take(i as int));
                lemma_diff_total_prefix(self.files@, i + 1);
            }
            relevant = relevant + self.files[i].branch_diff.relevant;
            covered = covered + self.files[i].branch_diff.covered;
            i += 1;
        }
        assert(self.files@.take(i as int) =~= self.files@);
        BranchDiffCoverage { relevant, covered, partial_lines: Vec::new() }
    }
}

// ---------------------------------------------------------------------------
// Coverage scope changes.
// ---------------------------------------------------------------------------

#[derive(Debug, Clone, PartialEq, Eq)]
pub struct CoverageScopeChange {
    /// Files newly included in coverage despite already existing in the base tree.
    pub appeared: Vec<String>,
    /// Files omitted from head coverage despite still existing in the head tree.
    pub disappeared: Vec<String>,
}

#[derive(Debug, Clone, Copy, PartialEq, Eq, Structural)]
pub enum CoverageScopeChangeKind {
    Appeared,
    Disappeared,
}

#[derive(Debug, Clone, Copy, PartialEq, Eq)]
pub struct CoverageScopeEntry<'a> {
    pub kind: CoverageScopeChangeKind,
    pub path: &'a str,
}

pub open spec fn has_string(s: Seq<String>, p: Seq<char>) -> bool {
    exists|i: int| 0 <= i < s.len() && #[trigger] s[i]@ == p
}

pub open spec fn strs_sorted(s: Seq<&str>) -> bool {
    forall|i: int, j: int| 0 <= i < j < s.len() ==> seq_lt(s[i]@, s[j]@)
}

pub open spec fn strings_sorted(s: Seq<String>) -> bool {
    forall|i: int, j: int| 0 <= i < j < s.len() ==> seq_lt(s[i]@, s[j]@)
}

fn str_before(a: &str, b: &[char]) -> (r: bool)
    ensures
        r == seq_lt(a@, b@),
{
    let ac = chars_of(a);
    crate::text::chars_lt(&ac, b)
}

/// The distinct strings of `v`, sorted.
fn sorted_distinct<'a>(v: &'a Vec<String>) -> (r: Vec<&'a str>)
    ensures
        strs_sorted(r@),
        forall|p: Seq<char>|
            (exists|i: int| 0 <= i < r@.len() && #[trigger] r@[i]@ == p) <==> has_string(v@, p),
{
    let mut r: Vec<&'a str> = Vec::new();
    let mut k: usize = 0;
    while k < v.len()
        invariant
            k <= v@.len(),
            strs_sorted(r@),
            forall|p: Seq<char>|
                (exists|i: int| 0 <= i < r@.len() && #[trigger] r@[i]@ == p) <==> has_string(
                    v@.take(k as int),
                    p,
                ),
        decreases v@.len() - k,
    {
        let s: &'a str = v[k].as_str();
        let sc = chars_of(s);
        let mut p: usize = 0;
        while p < r.len() && str_before(r[p], &sc)
            invariant
                p <= r@.len(),
                strs_sorted(r@),
                sc@ == s@,
                forall|i: int| 0 <= i < p ==> seq_lt(r@[i]@, s@),
            decreases r@.len() - p,
        {
            p += 1;
        }
        let ghost old_r = r@;
        let present = if p < r.len() {
            let rc = chars_of(r[p]);
            crate::text::seq_eq(&rc, &sc)
        } else {
            false
        };
        let ghost t0 = v@.take(k as int);
        let ghost t1 = v@.take(k + 1);
        assert forall|x: Seq<char>| #[trigger] has_string(t1, x) <==> (has_string(t0, x) || x
            == s@) by {
            if has_string(t1, x) {
                let i = choose|i: int| 0 <= i < t1.len() && #[trigger] t1[i]@ == x;
                if i < k {
                    assert(t0[i]@ == x);
                }
            }
            if has_string(t0, x) {
                let i = choose|i: int| 0 <= i < t0.len() && #[trigger] t0[i]@ == x;
                assert(t1[i]@ == x);
            }
            if x == s@ {
                assert(t1[k as int]@ == x);
            }
        }
        if !present {
            proof {
                if p < old_r.len() {
                    crate::text::lemma_seq_lt_trichotomy(old_r[p as int]@, s@);
                }
            }
            r.insert(p, s);
            assert forall|a: int, b: int| 0 <= a < b < r@.len() implies seq_lt(r@[a]@, r@[b]@) by {
                if b < p {
                    assert(seq_lt(old_r[a]@, old_r[b]@));
                } else if b == p {
                } else if a < p {
                    if b - 1 > p {
                        assert(seq_lt(old_r[p as int]@, old_r[b - 1]@));
                        crate::text::lemma_seq_lt_transitive(s@, old_r[p as int]@, old_r[b - 1]@);
                    }
                    crate::text::lemma_seq_lt_transitive(old_r[a]@, s@, old_r[b - 1]@);
                } else if a == p {
                    if b - 1 > p {
                        assert(seq_lt(old_r[p as int]@, old_r[b - 1]@));
                        crate::text::lemma_seq_lt_transitive(s@, old_r[p as int]@, old_r[b - 1]@);
                    }
                } else {
                    assert(seq_lt(old_r[a - 1]@, old_r[b - 1]@));
                }
            }
            assert forall|x: Seq<char>|
                (exists|i: int| 0 <= i < r@.len() && #[trigger] r@[i]@ == x) <==> has_string(t1, x) by {
                if exists|i: int| 0 <= i < r@.len() && #[trigger] r@[i]@ == x {
                    let i = choose|i: int| 0 <= i < r@.len() && #[trigger] r@[i]@ == x;
                    if i < p {
                        assert(old_r[i]@ == x);
                    } else if i > p {
                        assert(old_r[i - 1]@ == x);
                    }
                }
                if has_string(t0, x) {
                    let i = choose|i: int| 0 <= i < old_r.len() && #[trigger] old_r[i]@ == x;
                    if i < p {
                        assert(r@[i]@ == x);
                    } else {
                        assert(r@[i + 1]@ == x);
                    }
                }
                if x == s@ {
                    assert(r@[p as int]@ == x);
                }
            }
        } else {
            assert forall|x: Seq<char>|
                (exists|i: int| 0 <= i < r@.len() && #[trigger] r@[i]@ == x) <==> has_string(t1, x) by {
                if x == s@ {
                    assert(r@[p as int]@ == x);
                }
            }
        }
        k += 1;
    }
    assert(v@.take(k as int) =~= v@);
    r
}

/// `r` is the first `n` entries, the distinct appeared paths in order, then
/// the distinct disappeared paths in order.
pub open spec fn affected_split(
    r: Seq<CoverageScopeEntry>,
    n: int,
    appeared: Seq<String>,
    disappeared: Seq<String>,
) -> bool {
    &&& 0 <= n <= r.len()
    &&& forall|i: int|
        0 <= i < r.len() ==> ((#[trigger] r[i]).kind == CoverageScopeChangeKind::Appeared <==> i < n)
    &&& forall|i: int, j: int| 0 <= i < j < n ==> seq_lt(r[i].path@, r[j].path@)
    &&& forall|i: int, j: int| n <= i < j < r.len() ==> seq_lt(r[i].path@, r[j].path@)
    &&& forall|p: Seq<char>|
        (exists|i: int| 0 <= i < n && #[trigger] r[i].path@ == p) <==> has_string(appeared, p)
    &&& forall|p: Seq<char>|
        (exists|i: int| n <= i < r.len() && #[trigger] r[i].path@ == p) <==> has_string(
            disappeared,
            p,
        )
}

impl CoverageScopeChange {
    /// No appeared and no disappeared files.
    pub fn empty() -> (r: Self)
        ensures
            r.appeared@.len() == 0,
            r.disappeared@.len() == 0,
    {
        CoverageScopeChange { appeared: Vec::new(), disappeared: Vec::new() }
    }

    pub fn is_empty(&self) -> (r: bool)
        ensures
            r == (self.appeared@.len() == 0 && self.disappeared@.len() == 0),
    {
        self.appeared.len() == 0 && self.disappeared.len() == 0
    }

    /// The distinct appeared paths in order, then the distinct disappeared
    /// paths in order.
    pub fn affected_entries(&self) -> (r: Vec<CoverageScopeEntry<'_>>)
        ensures
            exists|n: int| #[trigger] affected_split(r@, n, self.appeared@, self.disappeared@),
    {
        let appeared = sorted_distinct(&self.appeared);
        let disappeared = sorted_distinct(&self.disappeared);
        let mut r: Vec<CoverageScopeEntry<'_>> = Vec::new();
        let mut i: usize = 0;
        while i < appeared.len()
            invariant
                i <= appeared@.len(),
                r@.len() == i,
                forall|k: int|
                    0 <= k < i ==> (#[trigger] r@[k]).kind == CoverageScopeChangeKind::Appeared
                        && r@[k].path == appeared@[k],
            decreases appeared@.len() - i,
        {
            r.push(CoverageScopeEntry { kind: CoverageScopeChangeKind::Appeared, path: appeared[i] });
            i += 1;
        }
        let n = r.len();
        let mut j: usize = 0;
        while j < disappeared.len()
            invariant
                j <= disappeared@.len(),
                n == appeared@.len(),
                r@.len() == n + j,
                forall|k: int|
                    0 <= k < n ==> (#[trigger] r@[k]).kind == CoverageScopeChangeKind::Appeared
                        && r@[k].path == appeared@[k],
                forall|k: int|
                    n <= k < n + j ==> (#[trigger] r@[k]).kind
                        == CoverageScopeChangeKind::Disappeared && r@[k].path == disappeared@[k
                        - n],
            decreases disappeared@.len() - j,
        {
            r.push(
                CoverageScopeEntry {
                    kind: CoverageScopeChangeKind::Disappeared,
                    path: disappeared[j],
                },
            );
            j += 1;
        }
        assert forall|p: Seq<char>|
            (exists|i: int| 0 <= i < n && #[trigger] r@[i].path@ == p) <==> has_string(
                self.appeared@,
                p,
            ) by {
            if exists|i: int| 0 <= i < n && #[trigger] r@[i].path@ == p {
                let i = choose|i: int| 0 <= i < n && #[trigger] r@[i].path@ == p;
                assert(appeared@[i]@ == p);
            }
            if has_string(self.appeared@, p) {
                let i = choose|i: int| 0 <= i < appeared@.len() && #[trigger] appeared@[i]@ == p;
                assert(r@[i].path@ == p);
            }
        }
        assert forall|p: Seq<char>|
            (exists|i: int| n <= i < r@.len() && #[trigger] r@[i].path@ == p) <==> has_string(
                self.disappeared@,
                p,
            ) by {
            if exists|i: int| n <= i < r@.len() && #[trigger] r@[i].path@ == p {
                let i = choose|i: int| n <= i < r@.len() && #[trigger] r@[i].path@ == p;
                assert(disappeared@[i - n]@ == p);
            }
            if has_string(self.disappeared@, p) {
                let i = choose|i: int|
                    0 <= i < disappeared@.len() && #[trigger] disappeared@[i]@ == p;
                assert(r@[n + i].path@ == p);
            }
        }
        assert forall|a: int, b: int| n <= a < b < r@.len() implies seq_lt(r@[a].path@, r@[b].path@) by {
            assert(seq_lt(disappeared@[a - n]@, disappeared@[b - n]@));
        }
        assert(affected_split(r@, n as int, self.appeared@, self.disappeared@));
        r
    }
}

/// Paths of `from` that `other` lacks and both trees hold, in order.
pub open spec fn scope_delta(
    from: Seq<FileCoverage>,
    other: Seq<FileCoverage>,
    base_tree: Seq<String>,
    head_tree: Seq<String>,
    p: Seq<char>,
) -> bool {
    has_path(from, p) && !has_path(other, p) && has_string(base_tree, p) && has_string(head_tree, p)
}

fn contains_string(v: &Vec<String>, p: &[char]) -> (r: bool)
    ensures
        r == has_string(v@, p@),
{
    let mut i: usize = 0;
    while i < v.len()
        invariant
            i <= v@.len(),
            forall|j: int| 0 <= j < i ==> v@[j]@ != p@,
        decreases v@.len() - i,
    {
        let c = chars_of(v[i].as_str());
        if crate::text::seq_eq(&c, p) {
            return true;
        }
        i += 1;
    }
    false
}

fn has_file(files: &Vec<FileCoverage>, p: &[char]) -> (r: bool)
    ensures
        r == has_path(files@, p@),
{
    let mut i: usize = 0;
    while i < files.len()
        invariant
            i <= files@.len(),
            forall|j: int| 0 <= j < i ==> files@[j].path@ != p@,
        decreases files@.len() - i,
    {
        let c = chars_of(files[i].path.as_str());
        if crate::text::seq_eq(&c, p) {
            return true;
        }
        i += 1;
    }
    false
}

fn scope_paths(
    from: &Vec<FileCoverage>,
    other: &Vec<FileCoverage>,
    base_tree: &Vec<String>,
    head_tree: &Vec<String>,
) -> (r: Vec<String>)
    requires
        paths_sorted(from@),
    ensures
        strings_sorted(r@),
        forall|p: Seq<char>|
            has_string(r@, p) <==> scope_delta(from@, other@, base_tree@, head_tree@, p),
{
    let mut r: Vec<String> = Vec::new();
    let mut i: usize = 0;
    while i < from.len()
        invariant
            i <= from@.len(),
            paths_sorted(from@),
            strings_sorted(r@),
            forall|k: int| #![trigger r@[k]] 0 <= k < r@.len() ==> exists|h: int| 0 <= h < i && #[trigger] from@[h].path@ == r@[k]@,
            forall|p: Seq<char>|
                has_string(r@, p) <==> (has_path(from@.take(i as int), p) && !has_path(other@, p)
                    && has_string(base_tree@, p) && has_string(head_tree@, p)),
        decreases from@.len() - i,
    {
        let c = chars_of(from[i].path.as_str());
        let ghost old_r = r@;
        let ghost f0 = from@.take(i as int);
        let ghost f1 = from@.take(i + 1);
        assert forall|x: Seq<char>| #[trigger] has_path(f1, x) <==> (has_path(f0, x) || x == c@) by {
            if has_path(f1, x) {
                let j = choose|j: int| 0 <= j < f1.len() && #[trigger] f1[j].path@ == x;
                if j < i {
                    assert(f0[j].path@ == x);
                }
            }
            if has_path(f0, x) {
                let j = choose|j: int| 0 <= j < f0.len() && #[trigger] f0[j].path@ == x;
                assert(f1[j].path@ == x);
            }
            if x == c@ {
                assert(f1[i as int].path@ == x);
            }
        }
        if !has_file(other, &c) && contains_string(base_tree, &c) && contains_string(head_tree, &c) {
            r.push(from[i].path.clone());
            assert forall|a: int, b: int| 0 <= a < b < r@.len() implies seq_lt(r@[a]@, r@[b]@) by {
                if b == r@.len() - 1 {
                    let h = choose|h: int| 0 <= h < i && #[trigger] from@[h].path@ == old_r[a]@;
                    assert(seq_lt(from@[h].path@, from@[i as int].path@));
                } else {
                    assert(seq_lt(old_r[a]@, old_r[b]@));
                }
            }
            assert forall|k: int| #![trigger r@[k]] 0 <= k < r@.len() implies exists|h: int| 0 <= h < i + 1 && #[trigger] from@[h].path@ == r@[k]@ by {
                if k < old_r.len() {
                    let h = choose|h: int| 0 <= h < i && #[trigger] from@[h].path@ == old_r[k]@;
                    assert(r@[k] == old_r[k]);
                } else {
                    assert(from@[i as int].path@ == r@[k]@);
                }
            }
            assert forall|p: Seq<char>| has_string(r@, p) <==> (has_path(f1, p)
                && !has_path(other@, p) && has_string(base_tree@, p) && has_string(head_tree@, p)) by {
                if has_string(r@, p) {
                    let k = choose|k: int| 0 <= k < r@.len() && #[trigger] r@[k]@ == p;
                    if k < old_r.len() {
                        assert(old_r[k]@ == p);
                    }
                }
                if has_string(old_r, p) {
                    let k = choose|k: int| 0 <= k < old_r.len() && #[trigger] old_r[k]@ == p;
                    assert(r@[k]@ == p);
                }
                if p == c@ {
                    assert(r@[r@.len() - 1]@ == p);
                }
            }
        } else {
            assert forall|k: int| #![trigger r@[k]] 0 <= k < r@.len() implies exists|h: int| 0 <= h < i + 1 && #[trigger] from@[h].path@ == r@[k]@ by {
                let h = choose|h: int| 0 <= h < i && #[trigger] from@[h].path@ == r@[k]@;
            }
        }
        i += 1;
    }
    assert(from@.take(i as int) =~= from@);
    r
}

fn detect_scope_change(
    base: &CoverageSnapshot,
    head: &CoverageSnapshot,
    base_tree: &Vec<String>,
    head_tree: &Vec<String>,
) -> (r: CoverageScopeChange)
    requires
        base.well_formed(),
        head.well_formed(),
    ensures
        scope_change_of(r, *base, *head, base_tree@, head_tree@),
{
    CoverageScopeChange {
        appeared: scope_paths(&head.files, &base.files, base_tree, head_tree),
        disappeared: scope_paths(&base.files, &head.files, base_tree, head_tree),
    }
}

/// Files in exactly one snapshot whose path both trees hold, each list sorted.
pub open spec fn scope_change_of(
    r: CoverageScopeChange,
    base: CoverageSnapshot,
    head: CoverageSnapshot,
    base_tree: Seq<String>,
    head_tree: Seq<String>,
) -> bool {
    &&& strings_sorted(r.appeared@)
    &&& strings_sorted(r.disappeared@)
    &&& forall|p: Seq<char>|
        has_string(r.appeared@, p) <==> scope_delta(head.files@, base.files@, base_tree, head_tree, p)
    &&& forall|p: Seq<char>|
        has_string(r.disappeared@, p) <==> scope_delta(
            base.files@,
            head.files@,
            base_tree,
            head_tree,
            p,
        )
}

#[derive(Debug, Clone, PartialEq, Eq)]
pub struct ComparisonAnalysis {
    pub comparison: Comparison,
    pub scope_change: CoverageScopeChange,
}

#[derive(Debug, Clone, PartialEq, Eq)]
pub struct ComparisonDocument {
    pub schema_version: u32,
    pub head_sha: String,
    pub base_sha: Option<String>,
    pub comparison: Comparison,
}

#[derive(Debug, Clone, PartialEq, Eq)]
pub struct ComparisonAnalysisDocument {
    pub schema_version: u32,
    pub head_sha: String,
    pub base_sha: Option<String>,
    pub comparison: ComparisonAnalysis,
}

impl ComparisonAnalysis {
    /// A comparison with no scope change.
    pub fn new(comparison: Comparison) -> (r: Self)
        ensures
            r.comparison == comparison,
            r.scope_change.appeared@.len() == 0,
            r.scope_change.disappeared@.len() == 0,
    {
        ComparisonAnalysis { comparison, scope_change: CoverageScopeChange::empty() }
    }

    pub fn head_totals(&self) -> (r: Counts)
        requires
            counts_total(head_side(self.comparison.files@)).0 <= u64::MAX,
            counts_total(head_side(self.comparison.files@)).1 <= u64::MAX,
        ensures
            r.covered == counts_total(head_side(self.comparison.files@)).0,
            r.executable == counts_total(head_side(self.comparison.files@)).1,
    {
        self.comparison.head_totals()
    }

    pub fn base_totals(&self) -> (r: Counts)
        requires
            counts_total(base_side(self.comparison.files@)).0 <= u64::MAX,
            counts_total(base_side(self.comparison.files@)).1 <= u64::MAX,
        ensures
            r.covered == counts_total(base_side(self.comparison.files@)).0,
            r.executable == counts_total(base_side(self.comparison.files@)).1,
    {
        self.comparison.base_totals()
    }

    pub fn diff_totals(&self) -> (r: DiffCoverage)
        requires
            diff_total(self.comparison.files@).0 <= u32::MAX,
            diff_total(self.comparison.files@).1 <= u32::MAX,
        ensures
            r.relevant == diff_total(self.comparison.files@).0,
            r.covered == diff_total(self.comparison.files@).1,
            r.uncovered_lines@.len() == 0,
    {
        self.comparison.diff_totals()
    }

    /// The line coverage delta, withheld when the coverage scope changed.
    pub fn delta_pct(&self) -> (r: Option<Delta>)
        requires
            self.scope_change.appeared@.len() == 0 && self.scope_change.disappeared@.len() == 0
                ==> counts_total(head_side(self.comparison.files@)).0 <= u64::MAX && counts_total(
                head_side(self.comparison.files@),
            ).1 <= u64::MAX && counts_total(base_side(self.comparison.files@)).0 <= u64::MAX
                && counts_total(base_side(self.comparison.files@)).1 <= u64::MAX,
        ensures
            self.scope_change.appeared@.len() == 0 && self.scope_change.disappeared@.len() == 0
                ==> line_delta_of(r, self.comparison),
            !(self.scope_change.appeared@.len() == 0 && self.scope_change.disappeared@.len() == 0)
                ==> r is None,
    {
        if self.scope_changed() {
            return None;
        }
        self.comparison.delta_pct()
    }

    /// The branch coverage delta, withheld when the coverage scope changed.
    pub fn branch_delta_pct(&self) -> (r: Option<Delta>)
        requires
            self.scope_change.appeared@.len() == 0 && self.scope_change.disappeared@.len() == 0
                ==> (branch_counts_total(head_branch_side(self.comparison.files@)) matches Some(
                (c, t),
            ) ==> c <= u64::MAX && t <= u64::MAX),
            self.scope_change.appeared@.len() == 0 && self.scope_change.disappeared@.len() == 0
                ==> (branch_counts_total(base_branch_side(self.comparison.files@)) matches Some(
                (c, t),
            ) ==> c <= u64::MAX && t <= u64::MAX),
        ensures
            self.scope_change.appeared@.len() == 0 && self.scope_change.disappeared@.len() == 0
                ==> branch_delta_of(r, self.comparison),
            !(self.scope_change.appeared@.len() == 0 && self.scope_change.disappeared@.len() == 0)
                ==> r is None,
    {
        if self.scope_changed() {
            return None;
        }
        self.comparison.branch_delta_pct()
    }

    pub fn scope_changed(&self) -> (r: bool)
        ensures
            r == !(self.scope_change.appeared@.len() == 0 && self.scope_change.disappeared@.len()
                == 0),
    {
        !self.scope_change.is_empty()
    }

    /// The distinct appeared paths in order, then the distinct disappeared
    /// paths in order.
    pub fn affected_entries(&self) -> (r: Vec<CoverageScopeEntry<'_>>)
        ensures
            exists|n: int|
                #[trigger] affected_split(
                    r@,
                    n,
                    self.scope_change.appeared@,
                    self.scope_change.disappeared@,
                ),
    {
        self.scope_change.affected_entries()
    }
}

/// Compares snapshots and detects coverage-scope drift when both corresponding
/// Git tree file sets are available. Tree checks are ignored without a base
/// snapshot or when either tree is unavailable.
pub fn compare_with_source_trees(
    base: Option<&CoverageSnapshot>,
    head: &CoverageSnapshot,
    changed: &ChangedLines,
    base_tree: Option<&Vec<String>>,
    head_tree: Option<&Vec<String>>,
) -> (r: ComparisonAnalysis)
    requires
        distinct_paths(head.files@),
        countable(*head),
        base matches Some(b) ==> distinct_paths(b.files@),
    ensures
        r.comparison.base_available == base is Some,
        comparison_files(
            r.comparison.files@,
            match base {
                Some(b) => Some(*b),
                None => None,
            },
            *head,
            *changed,
        ),
        counts_total(head_side(r.comparison.files@)).0 == crate::model::files_total(
            head.files@,
            crate::model::Measure::CoveredLines,
        ),
        counts_total(head_side(r.comparison.files@)).1 == crate::model::files_total(
            head.files@,
            crate::model::Measure::ExecutableLines,
        ),
        match (base, base_tree, head_tree) {
            (Some(b), Some(bt), Some(ht)) => scope_change_of(r.scope_change, *b, *head, bt@, ht@),
            _ => r.scope_change.appeared@.len() == 0 && r.scope_change.disappeared@.len() == 0,
        },
{
    let owned_head: Option<CoverageSnapshot> = if is_comparable(head) {
        None
    } else {
        Some(snapshot_by_path(head))
    };
    let owned_base: Option<CoverageSnapshot> = match base {
        Some(b) => if is_comparable(b) {
            None
        } else {
            Some(snapshot_by_path(b))
        },
        None => None,
    };
    let hs: &CoverageSnapshot = match &owned_head {
        Some(x) => x,
        None => head,
    };
    let bs: Option<&CoverageSnapshot> = match base {
        Some(b) => match &owned_base {
            Some(x) => Some(x),
            None => Some(b),
        },
        None => None,
    };
    let ghost bs_view: Option<CoverageSnapshot> = match bs {
        Some(x) => Some(*x),
        None => None,
    };
    let ghost b_view: Option<CoverageSnapshot> = match base {
        Some(x) => Some(*x),
        None => None,
    };
    proof {
        lemma_same_files_refl(head.files@);
        if let Some(b) = base {
            lemma_same_files_refl(b.files@);
        }
        lemma_countable_same(*hs, *head);
        assert(ordered_copy(Some(*hs), Some(*head)));
        assert(ordered_copy(bs_view, b_view));
    }
    let comparison = build_comparison(bs, hs, changed);
    let scope_change = match (bs, base_tree, head_tree) {
        (Some(b), Some(bt), Some(ht)) => detect_scope_change(b, hs, bt, ht),
        _ => CoverageScopeChange::empty(),
    };
    proof {
        lemma_comparison_same(comparison.files@, bs_view, b_view, *hs, *head, *changed);
        crate::laws::law_head_totals(comparison.files@, b_view, *head, *changed);
        if let (Some(b), Some(bt), Some(ht)) = (base, base_tree, head_tree) {
            lemma_scope_same(scope_change, bs_view->Some_0, *b, *hs, *head, bt@, ht@);
        }
    }
    ComparisonAnalysis { comparison, scope_change }
}

proof fn lemma_scope_same(
    r: CoverageScopeChange,
    bs: CoverageSnapshot,
    b: CoverageSnapshot,
    hs: CoverageSnapshot,
    h: CoverageSnapshot,
    bt: Seq<String>,
    ht: Seq<String>,
)
    requires
        scope_change_of(r, bs, hs, bt, ht),
        ordered_copy(Some(hs), Some(h)),
        ordered_copy(Some(bs), Some(b)),
    ensures
        scope_change_of(r, b, h, bt, ht),
{
    lemma_sorted_distinct(hs.files@);
    lemma_sorted_distinct(bs.files@);
    assert forall|p: Seq<char>| has_string(r.appeared@, p) <==> scope_delta(
        h.files@,
        b.files@,
        bt,
        ht,
        p,
    ) by {
        lemma_file_at_same(hs.files@, h.files@, p);
        lemma_file_at_same(bs.files@, b.files@, p);
    }
    assert forall|p: Seq<char>| has_string(r.disappeared@, p) <==> scope_delta(
        b.files@,
        h.files@,
        bt,
        ht,
        p,
    ) by {
        lemma_file_at_same(hs.files@, h.files@, p);
        lemma_file_at_same(bs.files@, b.files@, p);
    }
}

} // verus!
