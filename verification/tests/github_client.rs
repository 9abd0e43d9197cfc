use badgers::github::{
    ANNOTATIONS_PER_REQUEST, CommentSearch, MAX_PAGES, PER_PAGE, annotation_batches,
    comment_search_step,
};

const MARKER: &str = "<!-- badgers-report:owner/repo:5 -->";

#[test]
fn finds_the_first_marked_comment() {
    let page = vec![
        (1, Some("unrelated".to_string())),
        (2, None),
        (3, Some(format!("{MARKER}\nold report"))),
        (4, Some(format!("{MARKER}\nnewer"))),
    ];
    assert_eq!(comment_search_step(1, &page, &vec![MARKER.to_string()]), CommentSearch::Found(3));
}

#[test]
fn reads_further_pages_only_when_full() {
    let short = vec![(1, Some("unrelated".to_string()))];
    assert_eq!(comment_search_step(1, &short, &vec![MARKER.to_string()]), CommentSearch::NotFound);
    let full: Vec<(u64, Option<String>)> =
        (0..PER_PAGE as u64).map(|id| (id, Some("x".to_string()))).collect();
    assert_eq!(comment_search_step(1, &full, &vec![MARKER.to_string()]), CommentSearch::NextPage);
    assert_eq!(comment_search_step(MAX_PAGES, &full, &vec![MARKER.to_string()]), CommentSearch::NotFound);
}

#[test]
fn annotations_go_in_batches_of_fifty() {
    assert_eq!(ANNOTATIONS_PER_REQUEST, 50);
    assert_eq!(annotation_batches(0), vec![(0, 0)]);
    assert_eq!(annotation_batches(3), vec![(0, 3)]);
    assert_eq!(annotation_batches(50), vec![(0, 50)]);
    assert_eq!(annotation_batches(51), vec![(0, 50), (50, 51)]);
    assert_eq!(annotation_batches(120), vec![(0, 50), (50, 100), (100, 120)]);
}

#[test]
fn legacy_marker_prefixes_also_match() {
    let page = vec![
        (7, Some("<!-- badgers-report:owner/repo:5:old -->\nbody".to_string())),
        (8, Some(format!("{MARKER}\nbody"))),
    ];
    let markers = vec![MARKER.to_string(), "<!-- badgers-report:owner/repo:5:".to_string()];
    assert_eq!(comment_search_step(1, &page, &markers), CommentSearch::Found(7));
    assert_eq!(comment_search_step(1, &page, &vec![MARKER.to_string()]), CommentSearch::Found(8));
}
