use badgers::compare::{
    BranchCounts, ChangedLines, CoverageScopeChange, CoverageScopeChangeKind, compare,
    compare_with_source_trees, is_comparable, is_supported_comparison_schema_version,
    COMPARISON_SCHEMA_VERSION,
};
use badgers::model::{BranchHit, CoverageSnapshot, FileCoverage, Language, LineHit, ToolVersions};

fn snapshot(files: Vec<FileCoverage>) -> CoverageSnapshot {
    CoverageSnapshot::new(
        "o/r".into(),
        "sha".into(),
        None,
        None,
        "2026-07-19T00:00:00Z".into(),
        ToolVersions {
            badgers: "0.1.0".into(),
            cargo_llvm_cov: None,
            coverage_py: None,
        },
        files,
    )
}

fn file(path: &str, hits: &[(u32, u64)]) -> FileCoverage {
    FileCoverage::new(
        path.into(),
        Language::from_path(path),
        hits.iter()
            .map(|&(line, hits)| LineHit { line, hits })
            .collect(),
    )
}

fn changed(path: &str, lines: &[u32]) -> ChangedLines {
    let mut c = ChangedLines::new();
    for l in lines {
        c.insert(path, *l);
    }
    c
}

fn branch(line: u32, branch: &str, taken: Option<u64>) -> BranchHit {
    BranchHit {
        line,
        block: "0".to_string(),
        branch: branch.to_string(),
        taken,
    }
}

fn file_with_branches(path: &str, hits: &[(u32, u64)], branches: Vec<BranchHit>) -> FileCoverage {
    FileCoverage::detailed(
        path.into(),
        Language::from_path(path),
        hits.iter()
            .map(|&(line, hits)| LineHit { line, hits })
            .collect(),
        branches,
        Vec::new(),
    )
}

#[test]
fn computes_per_file_delta_and_diff_coverage() {
    let base = snapshot(vec![file("a.py", &[(1, 1), (2, 0)])]);
    let head = snapshot(vec![file("a.py", &[(1, 1), (2, 1), (3, 0)])]);
    let comparison = compare(Some(&base), &head, &changed("a.py", &[2, 3, 9]));

    assert_eq!(comparison.files.len(), 1);
    let delta = &comparison.files[0];
    let base_counts = delta.base.unwrap();
    assert_eq!((base_counts.covered, base_counts.executable), (1, 2));
    let head_counts = delta.head.unwrap();
    assert_eq!((head_counts.covered, head_counts.executable), (2, 3));
    assert_eq!(delta.diff.relevant, 2);
    assert_eq!(delta.diff.covered, 1);
    assert_eq!(delta.diff.uncovered_lines, vec![3]);
}

#[test]
fn handles_added_and_removed_files() {
    let base = snapshot(vec![file("gone.py", &[(1, 1)])]);
    let head = snapshot(vec![file("new.py", &[(1, 0)])]);
    let comparison = compare(Some(&base), &head, &ChangedLines::new());

    let gone = comparison.files.iter().find(|f| f.path == "gone.py").unwrap();
    assert!(gone.head.is_none());
    let new = comparison.files.iter().find(|f| f.path == "new.py").unwrap();
    assert!(new.base.is_none());
    let paths: Vec<&str> = comparison.files.iter().map(|f| f.path.as_str()).collect();
    assert_eq!(paths, vec!["gone.py", "new.py"]);
}

#[test]
fn no_base_snapshot_yields_no_delta() {
    let head = snapshot(vec![file("a.py", &[(1, 1)])]);
    let comparison = compare(None, &head, &ChangedLines::new());
    assert!(!comparison.base_available);
    let totals = comparison.head_totals();
    assert_eq!((totals.covered, totals.executable), (1, 1));
    let base = comparison.base_totals();
    assert_eq!((base.covered, base.executable), (0, 0));
}

#[test]
fn computes_branch_delta_and_changed_branch_coverage() {
    let base = snapshot(vec![file_with_branches(
        "a.py",
        &[(1, 1), (2, 1)],
        vec![branch(2, "0", Some(1)), branch(2, "1", Some(0))],
    )]);
    let head = snapshot(vec![file_with_branches(
        "a.py",
        &[(1, 1), (2, 1), (3, 1)],
        vec![
            branch(2, "0", Some(1)),
            branch(2, "1", Some(1)),
            branch(3, "0", Some(1)),
            branch(3, "1", Some(0)),
        ],
    )]);
    let comparison = compare(Some(&base), &head, &changed("a.py", &[2, 3]));

    let delta = &comparison.files[0];
    assert_eq!(delta.base_branches, Some(BranchCounts { covered: 1, total: 2 }));
    assert_eq!(delta.head_branches, Some(BranchCounts { covered: 3, total: 4 }));
    assert_eq!(delta.branch_diff.relevant, 4);
    assert_eq!(delta.branch_diff.covered, 3);
    assert_eq!(delta.branch_diff.partial_lines, vec![3]);

    let totals = comparison.branch_diff_totals();
    assert_eq!(totals.relevant, 4);
    assert_eq!(totals.covered, 3);
}

#[test]
fn unexecuted_changed_lines_are_not_branch_partial() {
    let head = snapshot(vec![file_with_branches(
        "a.py",
        &[(2, 0)],
        vec![branch(2, "0", None), branch(2, "1", None)],
    )]);
    let comparison = compare(None, &head, &changed("a.py", &[2]));

    let delta = &comparison.files[0];
    assert_eq!(delta.branch_diff.relevant, 2);
    assert_eq!(delta.branch_diff.covered, 0);
    assert!(delta.branch_diff.partial_lines.is_empty());
    assert_eq!(delta.diff.uncovered_lines, vec![2]);
}

#[test]
fn branch_delta_requires_branch_data_on_both_sides() {
    let base = snapshot(vec![file("a.py", &[(1, 1)])]);
    let head = snapshot(vec![file_with_branches("a.py", &[(1, 1)], vec![branch(1, "0", Some(1))])]);
    let comparison = compare(Some(&base), &head, &ChangedLines::new());

    assert!(comparison.head_branch_totals().is_some());
    assert_eq!(comparison.base_branch_totals(), None);
}

#[test]
fn comparison_schema_supports_legacy_and_current_versions_only() {
    assert!(!is_supported_comparison_schema_version(0));
    assert!(is_supported_comparison_schema_version(1));
    assert!(is_supported_comparison_schema_version(COMPARISON_SCHEMA_VERSION));
    assert!(!is_supported_comparison_schema_version(COMPARISON_SCHEMA_VERSION + 1));
}

#[test]
fn detects_scope_expansion_and_contraction_from_snapshot_and_tree_sets() {
    let base = snapshot(vec![file("steady.py", &[(1, 1)]), file("disappeared.py", &[(1, 1)])]);
    let head = snapshot(vec![file("steady.py", &[(1, 1)]), file("appeared.py", &[(1, 0)])]);
    let base_tree = vec![
        "appeared.py".to_string(),
        "disappeared.py".to_string(),
        "steady.py".to_string(),
    ];
    let head_tree = base_tree.clone();

    let comparison = compare_with_source_trees(
        Some(&base),
        &head,
        &ChangedLines::new(),
        Some(&base_tree),
        Some(&head_tree),
    );

    assert_eq!(comparison.scope_change.appeared, vec!["appeared.py"]);
    assert_eq!(comparison.scope_change.disappeared, vec!["disappeared.py"]);
    assert!(comparison.scope_changed());
}

#[test]
fn ignores_real_additions_deletions_and_renames_when_detecting_scope_changes() {
    let base = snapshot(vec![file("deleted.py", &[(1, 1)]), file("old_name.py", &[(1, 1)])]);
    let head = snapshot(vec![file("added.py", &[(1, 1)]), file("new_name.py", &[(1, 1)])]);
    let base_tree = vec!["deleted.py".to_string(), "old_name.py".to_string()];
    let head_tree = vec!["added.py".to_string(), "new_name.py".to_string()];

    let comparison = compare_with_source_trees(
        Some(&base),
        &head,
        &ChangedLines::new(),
        Some(&base_tree),
        Some(&head_tree),
    );

    assert!(!comparison.scope_changed());
}

#[test]
fn ignores_scope_candidates_without_the_same_path_in_both_trees() {
    let base = snapshot(vec![file("base_only.py", &[(1, 1)])]);
    let head = snapshot(vec![file("head_only.py", &[(1, 1)])]);
    let base_tree = vec!["head_only.py".to_string()];
    let head_tree = vec!["base_only.py".to_string()];

    let comparison = compare_with_source_trees(
        Some(&base),
        &head,
        &ChangedLines::new(),
        Some(&base_tree),
        Some(&head_tree),
    );

    assert!(!comparison.scope_changed());
    assert!(comparison.scope_change.appeared.is_empty());
    assert!(comparison.scope_change.disappeared.is_empty());
}

#[test]
fn affected_scope_entries_are_sorted_and_deduplicated() {
    let scope = CoverageScopeChange {
        appeared: vec!["z.py".into(), "a.py".into(), "a.py".into()],
        disappeared: vec!["d.py".into(), "c.py".into(), "c.py".into()],
    };

    let entries: Vec<_> = scope
        .affected_entries()
        .into_iter()
        .map(|entry| (entry.kind, entry.path))
        .collect();
    assert_eq!(
        entries,
        vec![
            (CoverageScopeChangeKind::Appeared, "a.py"),
            (CoverageScopeChangeKind::Appeared, "z.py"),
            (CoverageScopeChangeKind::Disappeared, "c.py"),
            (CoverageScopeChangeKind::Disappeared, "d.py"),
        ]
    );
}

#[test]
fn trees_are_ignored_without_a_base() {
    let head = snapshot(vec![file("a.py", &[(1, 1)])]);
    let tree = vec!["a.py".to_string(), "b.py".to_string()];
    let analysis = compare_with_source_trees(None, &head, &ChangedLines::new(), Some(&tree), Some(&tree));
    assert!(!analysis.scope_changed());
    let totals = analysis.diff_totals();
    assert_eq!((totals.relevant, totals.covered), (0, 0));
}

#[test]
fn changed_lines_insert_keeps_lines_sorted_and_unique() {
    let mut c = ChangedLines::new();
    c.insert("b.py", 9);
    c.insert("a.py", 4);
    c.insert("b.py", 2);
    c.insert("b.py", 9);
    assert_eq!(c.for_path("b.py").unwrap(), &vec![2, 9]);
    assert_eq!(c.for_path("a.py").unwrap(), &vec![4]);
    assert!(c.for_path("c.py").is_none());
}

#[test]
fn comparing_a_snapshot_with_itself_changes_nothing() {
    let s = snapshot(vec![
        file("src/a.rs", &[(1, 1), (2, 0)]),
        file_with_branches("src/b.rs", &[(3, 2)], vec![branch(3, "0", Some(1)), branch(3, "1", None)]),
    ]);
    let c = compare(Some(&s), &s, &changed("src/a.rs", &[2]));
    assert_eq!(c.files.len(), 2);
    for d in &c.files {
        assert!(d.head.is_some());
        assert_eq!(d.base, d.head);
        assert_eq!(d.base_branches, d.head_branches);
    }
}

#[test]
fn without_a_base_every_file_is_new() {
    let s = snapshot(vec![file("src/a.rs", &[(1, 1)]), file("src/b.rs", &[(2, 0)])]);
    let c = compare(None, &s, &ChangedLines::new());
    assert!(!c.base_available);
    assert_eq!(c.files.len(), 2);
    for d in &c.files {
        assert!(d.base.is_none());
        assert!(d.base_branches.is_none());
        assert!(d.head.is_some());
    }
}

#[test]
fn is_comparable_requires_path_order_without_duplicates() {
    let mut s = snapshot(vec![file("b.rs", &[(1, 1)]), file("a.rs", &[(1, 0)])]);
    assert!(is_comparable(&s));
    s.files.swap(0, 1);
    assert!(!is_comparable(&s));
    let dup = file("a.rs", &[(2, 1)]);
    s.files = vec![dup.clone(), dup];
    assert!(!is_comparable(&s));
}

#[test]
fn scope_change_suppresses_branch_delta() {
    let base = snapshot(vec![
        file_with_branches("steady.py", &[(1, 1)], vec![branch(1, "0", Some(1))]),
        file("disappeared.py", &[(1, 1)]),
    ]);
    let head = snapshot(vec![
        file_with_branches("steady.py", &[(1, 1)], vec![branch(1, "0", Some(1))]),
        file("appeared.py", &[(1, 0)]),
    ]);
    let tree = vec![
        "appeared.py".to_string(),
        "disappeared.py".to_string(),
        "steady.py".to_string(),
    ];

    let analysis = compare_with_source_trees(
        Some(&base),
        &head,
        &ChangedLines::new(),
        Some(&tree),
        Some(&tree),
    );

    assert!(analysis.scope_changed());
    assert_eq!(analysis.branch_delta_pct(), None);
    assert!(analysis.comparison.branch_delta_pct().is_some());
}

#[test]
fn exact_line_and_branch_deltas() {
    let base = snapshot(vec![file_with_branches(
        "a.py",
        &[(1, 1), (2, 0), (3, 0)],
        vec![branch(1, "0", Some(1)), branch(1, "1", None)],
    )]);
    let head = snapshot(vec![file_with_branches(
        "a.py",
        &[(1, 1), (2, 1), (3, 0)],
        vec![branch(1, "0", Some(1)), branch(1, "1", Some(2))],
    )]);
    let c = compare(Some(&base), &head, &ChangedLines::new());
    // 2/3 - 1/3 = +33.33 points; 2/2 - 1/2 = +50.00 points.
    let d = c.delta_pct().unwrap();
    assert!(!d.negative);
    assert_eq!(d.hundredths, 3333);
    let b = c.branch_delta_pct().unwrap();
    assert_eq!(b.hundredths, 5000);
    assert!(b.rises && b.exceeds_rise && !b.falls);
    let f = c.files[0].delta_pct().unwrap();
    assert_eq!(f.hundredths, 3333);
    assert_eq!(compare(None, &head, &ChangedLines::new()).delta_pct(), None);
    let added = compare(Some(&snapshot(vec![])), &head, &ChangedLines::new());
    assert_eq!(added.delta_pct(), None);
    assert_eq!(added.files[0].delta_pct(), None);
}

#[test]
fn count_percentages() {
    assert_eq!(BranchCounts { covered: 1, total: 4 }.pct(), Some(2500));
    assert_eq!(BranchCounts { covered: 0, total: 0 }.pct(), None);
    assert_eq!(badgers::compare::Counts { covered: 2, executable: 3 }.pct(), Some(6667));
    let d = badgers::compare::DiffCoverage { relevant: 3, covered: 1, uncovered_lines: vec![] };
    assert_eq!(d.pct(), Some(3333));
    assert_eq!(badgers::compare::BranchDiffCoverage::empty().pct(), None);
}

#[test]
fn analysis_comparison_is_the_plain_comparison() {
    let base = snapshot(vec![file("a.py", &[(1, 1), (2, 0)]), file("gone.py", &[(1, 1)])]);
    let head = snapshot(vec![file("a.py", &[(1, 1), (2, 1), (3, 0)]), file("new.py", &[(1, 0)])]);
    let changed = changed("a.py", &[2, 3]);
    let tree = vec!["a.py".to_string(), "gone.py".to_string(), "new.py".to_string()];
    let plain = compare(Some(&base), &head, &changed);
    let analysis = compare_with_source_trees(Some(&base), &head, &changed, Some(&tree), Some(&tree));
    assert_eq!(analysis.comparison, plain);
    let untracked = compare_with_source_trees(Some(&base), &head, &changed, None, Some(&tree));
    assert_eq!(untracked.comparison, plain);
    assert!(!untracked.scope_changed());
}

#[test]
fn file_order_of_the_snapshots_does_not_change_the_comparison() {
    let base = snapshot(vec![file("a.py", &[(1, 1), (2, 0)]), file("gone.py", &[(1, 1)])]);
    let head = snapshot(vec![
        file("a.py", &[(1, 1), (2, 1)]),
        file("b.py", &[(1, 0)]),
        file("c.py", &[(3, 1)]),
    ]);
    let ch = changed("a.py", &[2]);
    let expected = compare(Some(&base), &head, &ch);

    let mut head_shuffled = head.clone();
    head_shuffled.files.reverse();
    let mut base_shuffled = base.clone();
    base_shuffled.files.reverse();
    assert!(!is_comparable(&head_shuffled));
    let got = compare(Some(&base_shuffled), &head_shuffled, &ch);
    assert_eq!(got, expected);
    let paths: Vec<&str> = got.files.iter().map(|d| d.path.as_str()).collect();
    assert_eq!(paths, vec!["a.py", "b.py", "c.py", "gone.py"]);

    let tree = vec!["a.py".to_string(), "b.py".to_string(), "c.py".to_string(), "gone.py".to_string()];
    let analysis = compare_with_source_trees(
        Some(&base_shuffled),
        &head_shuffled,
        &ch,
        Some(&tree),
        Some(&tree),
    );
    assert_eq!(analysis.comparison, expected);
    assert_eq!(analysis.scope_change.appeared, vec!["b.py", "c.py"]);
    assert_eq!(analysis.scope_change.disappeared, vec!["gone.py"]);
    let totals = got.head_totals();
    assert_eq!(totals.covered, head_shuffled.covered_lines());
    assert_eq!(totals.executable, head_shuffled.executable_lines());
    assert_eq!((totals.covered, totals.executable), (3, 4));
}
