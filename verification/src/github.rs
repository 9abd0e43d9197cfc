//! What is published to GitHub: check-run annotations and comment outcomes.
use vstd::prelude::*;

use crate::text::{chars_of, contains_chars, contains_seq, dec, push_dec, push_str};

verus! {

#[derive(Debug, Clone, Copy, PartialEq, Eq, Structural)]
pub enum CommentAction {
    Created,
    Updated,
}

#[derive(Debug, Clone, PartialEq, Eq)]
pub struct CheckAnnotation {
    pub path: String,
    pub start_line: u32,
    pub end_line: u32,
    pub annotation_level: &'static str,
    pub message: String,
    pub title: String,
}

/// `line N` or `lines N-M`.
pub open spec fn lines_phrase(start: u32, end: u32) -> Seq<char> {
    if start == end {
        "line "@ + dec(start as nat)
    } else {
        "lines "@ + dec(start as nat) + "-"@ + dec(end as nat)
    }
}

impl CheckAnnotation {
    /// A warning that the changed lines `start_line..=end_line` of `path`
    /// are not covered.
    pub fn warning(path: String, start_line: u32, end_line: u32) -> (r: Self)
        ensures
            r.path@ == path@,
            r.start_line == start_line,
            r.end_line == end_line,
            r.annotation_level@ == "warning"@,
            r.message@ == "Changed executable "@ + lines_phrase(start_line, end_line)
                + " are not covered."@,
            r.title@ == "Uncovered changed lines"@,
    {
        let mut message: Vec<char> = Vec::new();
        push_str(&mut message, "Changed executable ");
        if start_line == end_line {
            push_str(&mut message, "line ");
            push_dec(&mut message, start_line as u64);
        } else {
            push_str(&mut message, "lines ");
            push_dec(&mut message, start_line as u64);
            push_str(&mut message, "-");
            push_dec(&mut message, end_line as u64);
        }
        push_str(&mut message, " are not covered.");
        CheckAnnotation {
            path,
            start_line,
            end_line,
            annotation_level: "warning",
            message: crate::text::string_of(&message),
            title: "Uncovered changed lines".to_owned(),
        }
    }
}

/// Comments read per page while searching a pull request's comments.
pub const PER_PAGE: u32 = 100;

/// Pages read at most while searching a pull request's comments.
pub const MAX_PAGES: u32 = 10;

/// Annotations sent with one check-run request.
pub const ANNOTATIONS_PER_REQUEST: usize = 50;

/// What one page of a pull request's comments decides.
#[derive(Debug, Clone, Copy, PartialEq, Eq, Structural)]
pub enum CommentSearch {
    /// The comment with this ID carries the marker.
    Found(u64),
    /// Read the next page.
    NextPage,
    /// No comment carries the marker.
    NotFound,
}

/// Whether a comment's body holds one of the markers.
pub open spec fn marked(body: Option<String>, markers: Seq<Seq<char>>) -> bool {
    match body {
        Some(b) => exists|j: int| 0 <= j < markers.len() && contains_seq(b@, #[trigger] markers[j]),
        None => false,
    }
}

/// The first comment of `comments` (ID and body) that holds a marker.
pub open spec fn first_marked(comments: Seq<(u64, Option<String>)>, markers: Seq<Seq<char>>) -> Option<
    u64,
>
    decreases comments.len(),
{
    if comments.len() == 0 {
        None
    } else if marked(comments[0].1, markers) {
        Some(comments[0].0)
    } else {
        first_marked(comments.drop_first(), markers)
    }
}

/// The markers as character sequences.
pub open spec fn marker_views(markers: Seq<String>) -> Seq<Seq<char>> {
    markers.map_values(|m: String| m@)
}

fn holds_any(body: &str, markers: &Vec<String>) -> (r: bool)
    ensures
        r == exists|j: int|
            0 <= j < markers@.len() && contains_seq(body@, #[trigger] marker_views(markers@)[j]),
{
    let bc = chars_of(body);
    let ghost ms = marker_views(markers@);
    let mut j: usize = 0;
    while j < markers.len()
        invariant
            j <= markers@.len(),
            bc@ == body@,
            ms == marker_views(markers@),
            forall|t: int| 0 <= t < j ==> !contains_seq(body@, #[trigger] ms[t]),
        decreases markers@.len() - j,
    {
        let mc = chars_of(markers[j].as_str());
        assert(ms[j as int] == markers@[j as int]@);
        if contains_chars(&bc, &mc) {
            return true;
        }
        j += 1;
    }
    false
}

/// The search's decision on page `page` (from 1): the first comment that
/// holds one of the markers, else another page when this one was full and
/// the page limit is not reached, else not found.
pub fn comment_search_step(page: u32, comments: &Vec<(u64, Option<String>)>, markers: &Vec<String>) -> (r:
    CommentSearch)
    ensures
        r == match first_marked(comments@, marker_views(markers@)) {
            Some(id) => CommentSearch::Found(id),
            None => if comments@.len() < PER_PAGE || page >= MAX_PAGES {
                CommentSearch::NotFound
            } else {
                CommentSearch::NextPage
            },
        },
{
    let ghost ms = marker_views(markers@);
    let mut i: usize = 0;
    assert(comments@.skip(0) =~= comments@);
    while i < comments.len()
        invariant
            i <= comments@.len(),
            ms == marker_views(markers@),
            first_marked(comments@, ms) == first_marked(comments@.skip(i as int), ms),
        decreases comments@.len() - i,
    {
        assert(comments@.skip(i as int).drop_first() =~= comments@.skip(i + 1));
        let (id, body) = &comments[i];
        let hit = match body {
            Some(b) => holds_any(b.as_str(), markers),
            None => false,
        };
        if hit {
            return CommentSearch::Found(*id);
        }
        i += 1;
    }
    assert(comments@.skip(i as int).len() == 0);
    if comments.len() < 100 || page >= MAX_PAGES {
        CommentSearch::NotFound
    } else {
        CommentSearch::NextPage
    }
}

/// The `(start, end)` ranges of the annotations sent with each check-run
/// request: the first request carries the first batch (empty when there
/// is none), each later one the next.
pub fn annotation_batches(n: usize) -> (r: Vec<(usize, usize)>)
    ensures
        r@.len() == if n == 0 { 1 } else { (n + 49) / 50 },
        forall|i: int|
            0 <= i < r@.len() ==> #[trigger] r@[i] == (
                (50 * i) as usize,
                if 50 * i + 50 <= n { (50 * i + 50) as usize } else { n },
            ),
{
    let mut out: Vec<(usize, usize)> = Vec::new();
    let first_end = if n < 50 { n } else { 50 };
    out.push((0, first_end));
    let mut start: usize = first_end;
    while start < n
        invariant
            out@.len() >= 1,
            start as int == if 50 * out@.len() <= n { 50 * out@.len() as int } else { n as int },
            n > 0 ==> 50 * (out@.len() - 1) < n,
            n == 0 ==> out@.len() == 1,
            forall|i: int|
                0 <= i < out@.len() ==> #[trigger] out@[i] == (
                    (50 * i) as usize,
                    if 50 * i + 50 <= n { (50 * i + 50) as usize } else { n },
                ),
        decreases n - start,
    {
        let end = if n - start < 50 { n } else { start + 50 };
        out.push((start, end));
        start = end;
    }
    if n > 0 {
        let ghost l = out@.len() as int;
        assert(50 * l >= n);
        assert((n + 49) / 50 == l) by (nonlinear_arith)
            requires
                50 * (l - 1) < n,
                n <= 50 * l,
        ;
    }
    out
}

} // verus!
