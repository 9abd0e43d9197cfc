//! The directory hierarchy of a comparison's files, read from their paths:
//! which files sit directly in a directory, which subdirectories it has (by
//! name, ascending), and the coverage summed over everything below it.
use vstd::prelude::*;

use crate::compare::{FileDelta, counts_total, diff_total, head_side, base_side};
use crate::text::{seq_lt, split};

verus! {

/// The views of a list of character vectors.
pub open spec fn vec_views(v: Seq<Vec<char>>) -> Seq<Seq<char>> {
    Seq::new(v.len(), |j: int| v[j]@)
}

/// The `/`-separated components of each path.
pub open spec fn path_parts(files: Seq<FileDelta>) -> Seq<Seq<Seq<char>>> {
    Seq::new(files.len(), |i: int| split(files[i].path@, '/'))
}

/// `d` is a prefix of `p`, component by component.
pub open spec fn starts_with_dir(p: Seq<Seq<char>>, d: Seq<Seq<char>>) -> bool {
    d.len() <= p.len() && p.take(d.len() as int) == d
}

/// A file whose components are `p` lies somewhere below directory `d`.
pub open spec fn below(p: Seq<Seq<char>>, d: Seq<Seq<char>>) -> bool {
    p.len() > d.len() && starts_with_dir(p, d)
}

/// A file whose components are `p` sits directly in directory `d`.
pub open spec fn directly_in(p: Seq<Seq<char>>, d: Seq<Seq<char>>) -> bool {
    p.len() == d.len() + 1 && starts_with_dir(p, d)
}

/// A file whose components are `p` lies in a subdirectory of `d`.
pub open spec fn in_subdir(p: Seq<Seq<char>>, d: Seq<Seq<char>>) -> bool {
    p.len() > d.len() + 1 && starts_with_dir(p, d)
}

/// The names of `s` before `n`, in order.
pub open spec fn names_before(s: Seq<Seq<char>>, n: Seq<char>) -> Seq<Seq<char>>
    decreases s.len(),
{
    if s.len() == 0 {
        seq![]
    } else if seq_lt(s.last(), n) {
        names_before(s.drop_last(), n).push(s.last())
    } else {
        names_before(s.drop_last(), n)
    }
}

/// The names of `s` after `n`, in order.
pub open spec fn names_after(s: Seq<Seq<char>>, n: Seq<char>) -> Seq<Seq<char>>
    decreases s.len(),
{
    if s.len() == 0 {
        seq![]
    } else if seq_lt(n, s.last()) {
        names_after(s.drop_last(), n).push(s.last())
    } else {
        names_after(s.drop_last(), n)
    }
}

/// `n` added to an ascending list of distinct names, unless it is there.
pub open spec fn insert_name(s: Seq<Seq<char>>, n: Seq<char>) -> Seq<Seq<char>> {
    names_before(s, n).push(n) + names_after(s, n)
}

/// The names of the subdirectories of `d` among the first `k` files,
/// ascending and distinct.
pub open spec fn child_names(ps: Seq<Seq<Seq<char>>>, d: Seq<Seq<char>>, k: nat) -> Seq<Seq<char>>
    decreases k,
{
    if k == 0 {
        seq![]
    } else {
        let prev = child_names(ps, d, (k - 1) as nat);
        let p = ps[k - 1];
        if in_subdir(p, d) {
            insert_name(prev, p[d.len() as int])
        } else {
            prev
        }
    }
}

/// The positions of the files among the first `k` that sit directly in `d`.
pub open spec fn direct_files(ps: Seq<Seq<Seq<char>>>, d: Seq<Seq<char>>, k: nat) -> Seq<usize>
    decreases k,
{
    if k == 0 {
        seq![]
    } else {
        let prev = direct_files(ps, d, (k - 1) as nat);
        if directly_in(ps[k - 1], d) {
            prev.push((k - 1) as usize)
        } else {
            prev
        }
    }
}

/// Coverage summed over a set of files: head covered and executable lines,
/// base covered and executable lines, changed lines covered and relevant.
pub struct Agg {
    pub head_covered: int,
    pub head_executable: int,
    pub base_covered: int,
    pub base_executable: int,
    pub diff_covered: int,
    pub diff_relevant: int,
}

pub open spec fn agg_zero() -> Agg {
    Agg {
        head_covered: 0,
        head_executable: 0,
        base_covered: 0,
        base_executable: 0,
        diff_covered: 0,
        diff_relevant: 0,
    }
}

pub open spec fn agg_add(a: Agg, f: FileDelta) -> Agg {
    Agg {
        head_covered: a.head_covered + match f.head {
            Some(c) => c.covered as int,
            None => 0,
        },
        head_executable: a.head_executable + match f.head {
            Some(c) => c.executable as int,
            None => 0,
        },
        base_covered: a.base_covered + match f.base {
            Some(c) => c.covered as int,
            None => 0,
        },
        base_executable: a.base_executable + match f.base {
            Some(c) => c.executable as int,
            None => 0,
        },
        diff_covered: a.diff_covered + f.diff.covered,
        diff_relevant: a.diff_relevant + f.diff.relevant,
    }
}

/// Coverage summed over the first `k` files lying below `d`.
pub open spec fn dir_agg(files: Seq<FileDelta>, ps: Seq<Seq<Seq<char>>>, d: Seq<Seq<char>>, k: nat) -> Agg
    decreases k,
{
    if k == 0 {
        agg_zero()
    } else {
        let prev = dir_agg(files, ps, d, (k - 1) as nat);
        if below(ps[k - 1], d) {
            agg_add(prev, files[k - 1])
        } else {
            prev
        }
    }
}

/// Coverage summed over the first `k` files.
pub open spec fn all_agg(files: Seq<FileDelta>, k: nat) -> Agg
    decreases k,
{
    if k == 0 {
        agg_zero()
    } else {
        agg_add(all_agg(files, (k - 1) as nat), files[k - 1])
    }
}

/// The most components any path has.
pub open spec fn max_parts(ps: Seq<Seq<Seq<char>>>) -> nat
    decreases ps.len(),
{
    if ps.len() == 0 {
        0
    } else {
        let m = max_parts(ps.drop_last());
        if ps.last().len() > m {
            ps.last().len()
        } else {
            m
        }
    }
}

pub open spec fn agg_within(a: Agg, b: Agg) -> bool {
    &&& 0 <= a.head_covered <= b.head_covered
    &&& 0 <= a.head_executable <= b.head_executable
    &&& 0 <= a.base_covered <= b.base_covered
    &&& 0 <= a.base_executable <= b.base_executable
    &&& 0 <= a.diff_covered <= b.diff_covered
    &&& 0 <= a.diff_relevant <= b.diff_relevant
}

/// What a directory sums is at most what all files sum.
pub proof fn lemma_dir_agg_within(files: Seq<FileDelta>, ps: Seq<Seq<Seq<char>>>, d: Seq<Seq<char>>, k: nat)
    requires
        k <= files.len(),
    ensures
        agg_within(dir_agg(files, ps, d, k), all_agg(files, k)),
    decreases k,
{
    if k > 0 {
        lemma_dir_agg_within(files, ps, d, (k - 1) as nat);
    }
}

pub proof fn lemma_all_agg_prefix(files: Seq<FileDelta>, j: nat, k: nat)
    requires
        j <= k <= files.len(),
    ensures
        agg_within(all_agg(files, j), all_agg(files, k)),
    decreases k,
{
    if j < k {
        lemma_all_agg_prefix(files, j, (k - 1) as nat);
    } else {
        lemma_all_agg_nonneg(files, k);
    }
}

proof fn lemma_all_agg_nonneg(files: Seq<FileDelta>, k: nat)
    ensures
        agg_within(all_agg(files, k), all_agg(files, k)),
    decreases k,
{
    if k > 0 {
        lemma_all_agg_nonneg(files, (k - 1) as nat);
    }
}

/// Summing all files agrees with the comparison's totals.
pub proof fn lemma_all_agg_totals(files: Seq<FileDelta>)
    ensures
        all_agg(files, files.len()).head_covered == counts_total(head_side(files)).0,
        all_agg(files, files.len()).head_executable == counts_total(head_side(files)).1,
        all_agg(files, files.len()).base_covered == counts_total(base_side(files)).0,
        all_agg(files, files.len()).base_executable == counts_total(base_side(files)).1,
        all_agg(files, files.len()).diff_relevant == diff_total(files).0,
        all_agg(files, files.len()).diff_covered == diff_total(files).1,
    decreases files.len(),
{
    if files.len() > 0 {
        let t = files.drop_last();
        lemma_all_agg_totals(t);
        assert(head_side(files).drop_last() =~= head_side(t));
        assert(base_side(files).drop_last() =~= base_side(t));
        lemma_all_agg_take(files, (files.len() - 1) as nat);
    }
}

proof fn lemma_all_agg_take(files: Seq<FileDelta>, k: nat)
    requires
        k <= files.len(),
    ensures
        all_agg(files, k) == all_agg(files.take(k as int), k),
    decreases k,
{
    if k > 0 {
        lemma_all_agg_take(files, (k - 1) as nat);
        lemma_all_agg_take(files.take(k as int), (k - 1) as nat);
        assert(files.take(k as int).take(k - 1) =~= files.take(k - 1));
    }
}


// ---------------------------------------------------------------------------
// Computing the hierarchy.
// ---------------------------------------------------------------------------

pub open spec fn parts_views(ps: Seq<Vec<Vec<char>>>) -> Seq<Seq<Seq<char>>> {
    Seq::new(ps.len(), |i: int| vec_views(ps[i]@))
}

/// The components of each file's path.
pub fn parts_of_files(files: &Vec<FileDelta>) -> (r: Vec<Vec<Vec<char>>>)
    ensures
        parts_views(r@) == path_parts(files@),
{
    let mut r: Vec<Vec<Vec<char>>> = Vec::new();
    let mut i: usize = 0;
    while i < files.len()
        invariant
            i <= files@.len(),
            r@.len() == i,
            forall|j: int| 0 <= j < i ==> vec_views(#[trigger] r@[j]@) == split(files@[j].path@, '/'),
        decreases files@.len() - i,
    {
        let cs = crate::text::chars_of(files[i].path.as_str());
        let parts = crate::text::split_char(&cs, '/');
        assert(vec_views(parts@) =~= parts@.map_values(|v: Vec<char>| v@));
        r.push(parts);
        i += 1;
    }
    assert(parts_views(r@) =~= path_parts(files@));
    r
}

/// Whether `d` is a prefix of `p`.
pub fn starts_with_dir_exec(p: &Vec<Vec<char>>, d: &Vec<Vec<char>>) -> (r: bool)
    ensures
        r == starts_with_dir(vec_views(p@), vec_views(d@)),
{
    if d.len() > p.len() {
        return false;
    }
    let mut i: usize = 0;
    while i < d.len()
        invariant
            i <= d@.len() <= p@.len(),
            forall|j: int| 0 <= j < i ==> p@[j]@ == d@[j]@,
        decreases d@.len() - i,
    {
        if !crate::text::seq_eq(&p[i], &d[i]) {
            assert(vec_views(p@).take(d@.len() as int)[i as int] != vec_views(d@)[i as int]);
            return false;
        }
        i += 1;
    }
    assert(vec_views(p@).take(d@.len() as int) =~= vec_views(d@));
    true
}

proof fn lemma_names_push(s: Seq<Seq<char>>, y: Seq<char>, n: Seq<char>)
    ensures
        names_before(s.push(y), n) == if seq_lt(y, n) {
            names_before(s, n).push(y)
        } else {
            names_before(s, n)
        },
        names_after(s.push(y), n) == if seq_lt(n, y) {
            names_after(s, n).push(y)
        } else {
            names_after(s, n)
        },
{
    assert(s.push(y).drop_last() =~= s);
}

proof fn lemma_views_push(v: Seq<Vec<char>>, x: Vec<char>)
    ensures
        vec_views(v.push(x)) == vec_views(v).push(x@),
{
    assert(vec_views(v.push(x)) =~= vec_views(v).push(x@));
}

fn insert_name_exec(names: &Vec<Vec<char>>, n: &Vec<char>) -> (r: Vec<Vec<char>>)
    ensures
        vec_views(r@) == insert_name(vec_views(names@), n@),
{
    let ghost nv = vec_views(names@);
    let mut r: Vec<Vec<char>> = Vec::new();
    let mut i: usize = 0;
    while i < names.len()
        invariant
            i <= names@.len(),
            nv == vec_views(names@),
            vec_views(r@) == names_before(nv.take(i as int), n@),
        decreases names@.len() - i,
    {
        proof {
            assert(nv.take(i + 1) =~= nv.take(i as int).push(names@[i as int]@));
            lemma_names_push(nv.take(i as int), names@[i as int]@, n@);
        }
        if crate::text::chars_lt(&names[i], n) {
            proof {
                lemma_views_push(r@, names@[i as int]);
            }
            r.push(names[i].clone());
        }
        i += 1;
    }
    assert(nv.take(i as int) =~= nv);
    proof {
        lemma_views_push(r@, *n);
    }
    r.push(n.clone());
    let ghost lo = vec_views(r@);
    assert(names_after(nv.take(0), n@) =~= seq![]);
    assert(vec_views(r@) =~= lo + names_after(nv.take(0), n@));
    let mut j: usize = 0;
    while j < names.len()
        invariant
            j <= names@.len(),
            nv == vec_views(names@),
            vec_views(r@) == lo + names_after(nv.take(j as int), n@),
        decreases names@.len() - j,
    {
        proof {
            assert(nv.take(j + 1) =~= nv.take(j as int).push(names@[j as int]@));
            lemma_names_push(nv.take(j as int), names@[j as int]@, n@);
        }
        if crate::text::chars_lt(n, &names[j]) {
            proof {
                lemma_views_push(r@, names@[j as int]);
            }
            r.push(names[j].clone());
            assert(vec_views(r@) =~= lo + names_after(nv.take(j + 1), n@));
        }
        j += 1;
    }
    assert(nv.take(j as int) =~= nv);
    r
}

/// The names of the subdirectories of `d`, ascending and distinct.
pub fn child_names_exec(ps: &Vec<Vec<Vec<char>>>, d: &Vec<Vec<char>>) -> (r: Vec<Vec<char>>)
    ensures
        vec_views(r@) == child_names(parts_views(ps@), vec_views(d@), ps@.len()),
{
    let ghost pv = parts_views(ps@);
    let mut r: Vec<Vec<char>> = Vec::new();
    assert(vec_views(r@) =~= seq![]);
    let mut k: usize = 0;
    while k < ps.len()
        invariant
            k <= ps@.len(),
            pv == parts_views(ps@),
            vec_views(r@) == child_names(pv, vec_views(d@), k as nat),
        decreases ps@.len() - k,
    {
        let p = &ps[k];
        assert(pv[k as int] == vec_views(p@));
        if p.len() > d.len() && p.len() - d.len() > 1 && starts_with_dir_exec(p, d) {
            r = insert_name_exec(&r, &p[d.len()]);
        }
        k += 1;
    }
    r
}

/// The positions of the files sitting directly in `d`.
pub fn direct_files_exec(ps: &Vec<Vec<Vec<char>>>, d: &Vec<Vec<char>>) -> (r: Vec<usize>)
    ensures
        r@ == direct_files(parts_views(ps@), vec_views(d@), ps@.len()),
        forall|j: int| 0 <= j < r@.len() ==> #[trigger] r@[j] < ps@.len(),
{
    let ghost pv = parts_views(ps@);
    let mut r: Vec<usize> = Vec::new();
    let mut k: usize = 0;
    while k < ps.len()
        invariant
            k <= ps@.len(),
            pv == parts_views(ps@),
            r@ == direct_files(pv, vec_views(d@), k as nat),
            forall|j: int| 0 <= j < r@.len() ==> #[trigger] r@[j] < k,
        decreases ps@.len() - k,
    {
        let p = &ps[k];
        assert(pv[k as int] == vec_views(p@));
        if p.len() > d.len() && p.len() - d.len() == 1 && starts_with_dir_exec(p, d) {
            r.push(k);
        }
        k += 1;
    }
    r
}

/// The most components any path has.
pub fn max_parts_exec(ps: &Vec<Vec<Vec<char>>>) -> (r: usize)
    ensures
        r == max_parts(parts_views(ps@)),
{
    let ghost pv = parts_views(ps@);
    let mut m: usize = 0;
    let mut k: usize = 0;
    while k < ps.len()
        invariant
            k <= ps@.len(),
            pv == parts_views(ps@),
            m == max_parts(pv.take(k as int)),
        decreases ps@.len() - k,
    {
        assert(pv.take(k + 1).drop_last() =~= pv.take(k as int));
        assert(pv[k as int].len() == ps@[k as int]@.len());
        if ps[k].len() > m {
            m = ps[k].len();
        }
        k += 1;
    }
    assert(pv.take(k as int) =~= pv);
    m
}

/// Coverage summed over the files below a directory.
#[derive(Debug, Clone, Copy)]
pub struct DirAgg {
    pub head_covered: u64,
    pub head_executable: u64,
    pub base_covered: u64,
    pub base_executable: u64,
    pub diff_covered: u32,
    pub diff_relevant: u32,
}

impl DirAgg {
    pub open spec fn spec_agg(self) -> Agg {
        Agg {
            head_covered: self.head_covered as int,
            head_executable: self.head_executable as int,
            base_covered: self.base_covered as int,
            base_executable: self.base_executable as int,
            diff_covered: self.diff_covered as int,
            diff_relevant: self.diff_relevant as int,
        }
    }
}

/// Sums of all files that fit their integer types.
pub open spec fn agg_fits(a: Agg) -> bool {
    &&& a.head_covered <= u64::MAX
    &&& a.head_executable <= u64::MAX
    &&& a.base_covered <= u64::MAX
    &&& a.base_executable <= u64::MAX
    &&& a.diff_covered <= u32::MAX
    &&& a.diff_relevant <= u32::MAX
}

/// The coverage of the files below `d`.
pub fn aggregate(files: &Vec<FileDelta>, ps: &Vec<Vec<Vec<char>>>, d: &Vec<Vec<char>>) -> (r: DirAgg)
    requires
        ps@.len() == files@.len(),
        agg_fits(all_agg(files@, files@.len())),
    ensures
        r.spec_agg() == dir_agg(files@, parts_views(ps@), vec_views(d@), files@.len()),
{
    let ghost pv = parts_views(ps@);
    let mut a = DirAgg {
        head_covered: 0,
        head_executable: 0,
        base_covered: 0,
        base_executable: 0,
        diff_covered: 0,
        diff_relevant: 0,
    };
    let mut k: usize = 0;
    while k < files.len()
        invariant
            k <= files@.len(),
            ps@.len() == files@.len(),
            pv == parts_views(ps@),
            agg_fits(all_agg(files@, files@.len())),
            a.spec_agg() == dir_agg(files@, pv, vec_views(d@), k as nat),
        decreases files@.len() - k,
    {
        proof {
            lemma_dir_agg_within(files@, pv, vec_views(d@), (k + 1) as nat);
            lemma_all_agg_prefix(files@, (k + 1) as nat, files@.len());
        }
        let p = &ps[k];
        assert(pv[k as int] == vec_views(p@));
        if p.len() > d.len() && starts_with_dir_exec(p, d) {
            let f = &files[k];
            match f.head {
                Some(c) => {
                    a.head_covered = a.head_covered + c.covered;
                    a.head_executable = a.head_executable + c.executable;
                },
                None => {},
            }
            match f.base {
                Some(c) => {
                    a.base_covered = a.base_covered + c.covered;
                    a.base_executable = a.base_executable + c.executable;
                },
                None => {},
            }
            a.diff_covered = a.diff_covered + f.diff.covered;
            a.diff_relevant = a.diff_relevant + f.diff.relevant;
        }
        k += 1;
    }
    a
}

/// Directory `d` extended by `name`.
pub fn child_dir(d: &Vec<Vec<char>>, name: &Vec<char>) -> (r: Vec<Vec<char>>)
    ensures
        vec_views(r@) == vec_views(d@).push(name@),
        r@.len() == d@.len() + 1,
{
    let mut r: Vec<Vec<char>> = Vec::new();
    let mut i: usize = 0;
    while i < d.len()
        invariant
            i <= d@.len(),
            r@.len() == i,
            forall|j: int| 0 <= j < i ==> (#[trigger] r@[j])@ == d@[j]@,
        decreases d@.len() - i,
    {
        r.push(d[i].clone());
        i += 1;
    }
    r.push(name.clone());
    assert(vec_views(r@) =~= vec_views(d@).push(name@));
    r
}

} // verus!
