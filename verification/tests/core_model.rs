use badgers::model::{
    BranchHit, CoverageSnapshot, FileCoverage, FunctionHit, Language, LineHit, ToolVersions,
};

fn snapshot_with(files: Vec<FileCoverage>) -> CoverageSnapshot {
    CoverageSnapshot::new(
        "owner/repo".to_string(),
        "a".repeat(40),
        Some("main".to_string()),
        None,
        "2026-07-04T00:00:00Z".to_string(),
        ToolVersions {
            badgers: "0.1.0".to_string(),
            cargo_llvm_cov: None,
            coverage_py: Some("7.6.1".to_string()),
        },
        files,
    )
}

fn branch(line: u32, branch: &str, taken: Option<u64>) -> BranchHit {
    BranchHit {
        line,
        block: "0".to_string(),
        branch: branch.to_string(),
        taken,
    }
}

#[test]
fn file_coverage_merges_duplicate_lines_and_sorts() {
    let fc = FileCoverage::new(
        "a.py".to_string(),
        Language::Python,
        vec![
            LineHit { line: 5, hits: 2 },
            LineHit { line: 1, hits: 0 },
            LineHit { line: 5, hits: 3 },
        ],
    );
    assert_eq!(
        fc.line_hits,
        vec![LineHit { line: 1, hits: 0 }, LineHit { line: 5, hits: 5 }]
    );
    assert_eq!(fc.executable_lines(), 2);
    assert_eq!(fc.covered_lines(), 1);
}

#[test]
fn snapshot_sorts_and_merges_duplicate_paths() {
    let snap = snapshot_with(vec![
        FileCoverage::new(
            "b.py".to_string(),
            Language::Python,
            vec![LineHit { line: 1, hits: 1 }],
        ),
        FileCoverage::new(
            "a.py".to_string(),
            Language::Python,
            vec![LineHit { line: 1, hits: 0 }],
        ),
        FileCoverage::new(
            "a.py".to_string(),
            Language::Python,
            vec![LineHit { line: 1, hits: 4 }, LineHit { line: 2, hits: 0 }],
        ),
    ]);
    let paths: Vec<&str> = snap.files.iter().map(|f| f.path.as_str()).collect();
    assert_eq!(paths, vec!["a.py", "b.py"]);
    assert_eq!(
        snap.files[0].line_hits,
        vec![LineHit { line: 1, hits: 4 }, LineHit { line: 2, hits: 0 }]
    );
    assert_eq!(snap.executable_lines(), 3);
    assert_eq!(snap.covered_lines(), 2);
}

#[test]
fn language_from_path() {
    assert_eq!(Language::from_path("src/lib.rs"), Language::Rust);
    assert_eq!(Language::from_path("pkg/mod.py"), Language::Python);
    assert_eq!(Language::from_path("lib/main.dart"), Language::Dart);
    assert_eq!(Language::from_path("README.md"), Language::Unknown);
    assert_eq!(Language::from_path("Makefile"), Language::Unknown);
}

#[test]
fn language_from_path_edge_cases() {
    assert_eq!(Language::from_path(".rs"), Language::Unknown);
    assert_eq!(Language::from_path("dir.py/file"), Language::Unknown);
    assert_eq!(Language::from_path("a/b.rs/"), Language::Rust);
    assert_eq!(Language::from_path("a/b.rs/."), Language::Rust);
    assert_eq!(Language::from_path("a/.."), Language::Unknown);
    assert_eq!(Language::from_path("archive.tar.py"), Language::Python);
    assert_eq!(Language::from_path(""), Language::Unknown);
}

#[test]
fn merges_branch_taken_counts_with_lcov_dash_rule() {
    let fc = FileCoverage::detailed(
        "a.py".to_string(),
        Language::Python,
        vec![LineHit { line: 1, hits: 1 }],
        vec![
            branch(2, "0", None),
            branch(2, "0", Some(2)),
            branch(2, "1", None),
            branch(2, "1", None),
            branch(2, "2", Some(0)),
        ],
        Vec::new(),
    );
    assert_eq!(
        fc.branches,
        vec![
            branch(2, "0", Some(2)),
            branch(2, "1", None),
            branch(2, "2", Some(0)),
        ]
    );
    assert_eq!(fc.total_branches(), 3);
    assert_eq!(fc.covered_branches(), 1);
}

#[test]
fn merges_functions_by_name_and_keeps_smallest_known_line() {
    let fc = FileCoverage::detailed(
        "a.py".to_string(),
        Language::Python,
        Vec::new(),
        Vec::new(),
        vec![
            FunctionHit {
                name: "main".to_string(),
                line: 0,
                hits: 1,
            },
            FunctionHit {
                name: "main".to_string(),
                line: 4,
                hits: 2,
            },
            FunctionHit {
                name: "helper".to_string(),
                line: 9,
                hits: 0,
            },
        ],
    );
    assert_eq!(
        fc.functions,
        vec![
            FunctionHit {
                name: "helper".to_string(),
                line: 9,
                hits: 0,
            },
            FunctionHit {
                name: "main".to_string(),
                line: 4,
                hits: 3,
            },
        ]
    );
    assert_eq!(fc.total_functions(), 2);
    assert_eq!(fc.covered_functions(), 1);
}

#[test]
fn snapshot_merges_branches_and_functions_across_duplicate_paths() {
    let snap = snapshot_with(vec![
        FileCoverage::detailed(
            "a.py".to_string(),
            Language::Python,
            vec![LineHit { line: 1, hits: 1 }],
            vec![branch(1, "0", None)],
            vec![FunctionHit {
                name: "main".to_string(),
                line: 1,
                hits: 1,
            }],
        ),
        FileCoverage::detailed(
            "a.py".to_string(),
            Language::Python,
            vec![LineHit { line: 1, hits: 1 }],
            vec![branch(1, "0", Some(3)), branch(1, "1", Some(0))],
            vec![FunctionHit {
                name: "main".to_string(),
                line: 1,
                hits: 2,
            }],
        ),
    ]);
    assert_eq!(snap.files.len(), 1);
    assert_eq!(
        snap.files[0].branches,
        vec![branch(1, "0", Some(3)), branch(1, "1", Some(0))]
    );
    assert_eq!(snap.total_branches(), 2);
    assert_eq!(snap.covered_branches(), 1);
    assert_eq!(snap.files[0].functions[0].hits, 3);
    assert_eq!(snap.total_functions(), 1);
    assert_eq!(snap.covered_functions(), 1);
}

#[test]
fn saturating_merge_of_line_hits() {
    let fc = FileCoverage::new(
        "a.rs".to_string(),
        Language::Rust,
        vec![
            LineHit { line: 3, hits: u64::MAX },
            LineHit { line: 3, hits: 7 },
        ],
    );
    assert_eq!(fc.line_hits, vec![LineHit { line: 3, hits: u64::MAX }]);
}

#[test]
fn merge_taken_rule() {
    assert_eq!(BranchHit::merge_taken(None, None), None);
    assert_eq!(BranchHit::merge_taken(None, Some(2)), Some(2));
    assert_eq!(BranchHit::merge_taken(Some(0), None), Some(0));
    assert_eq!(BranchHit::merge_taken(Some(2), Some(3)), Some(5));
    assert_eq!(BranchHit::merge_taken(Some(u64::MAX), Some(1)), Some(u64::MAX));
    assert!(branch(1, "0", Some(1)).is_covered());
    assert!(!branch(1, "0", Some(0)).is_covered());
    assert!(!branch(1, "0", None).is_covered());
}

#[test]
fn normalising_twice_changes_nothing() {
    let once = FileCoverage::detailed(
        "a.py".to_string(),
        Language::Python,
        vec![LineHit { line: 9, hits: 1 }, LineHit { line: 2, hits: 0 }, LineHit { line: 9, hits: 2 }],
        vec![branch(3, "1", Some(1)), branch(3, "0", None), branch(3, "1", None)],
        vec![FunctionHit { name: "z".to_string(), line: 5, hits: 0 }, FunctionHit { name: "a".to_string(), line: 0, hits: 1 }],
    );
    let twice = FileCoverage::detailed(
        once.path.clone(),
        once.language,
        once.line_hits.clone(),
        once.branches.clone(),
        once.functions.clone(),
    );
    assert_eq!(once, twice);
}

#[test]
fn empty_snapshot_totals_are_zero() {
    let snap = snapshot_with(vec![]);
    assert_eq!(snap.executable_lines(), 0);
    assert_eq!(snap.covered_lines(), 0);
    assert_eq!(snap.total_branches(), 0);
    assert_eq!(snap.schema_version, badgers::model::SCHEMA_VERSION);
}

#[test]
fn snapshot_line_totals_fit() {
    use_measure_total_fits();
}

fn use_measure_total_fits() {
    let files = vec![badgers::model::FileCoverage::new(
        "a.rs".into(),
        badgers::model::Language::Rust,
        vec![badgers::model::LineHit { line: 1, hits: 1 }],
    )];
    assert!(badgers::model::measure_total_fits(&files, badgers::model::Measure::ExecutableLines));
    assert!(badgers::model::measure_total_fits(&Vec::new(), badgers::model::Measure::CoveredLines));
}

#[test]
fn coverage_pct_is_none_without_executable_lines() {
    assert_eq!(badgers::pct::coverage_pct(0, 0), None);
    let snap = snapshot_with(vec![]);
    assert_eq!(snap.coverage_pct(), None);
    // 66.666…% in hundredths of a percent, rounded as reports show it.
    let pct = badgers::pct::coverage_pct(2, 3).unwrap();
    assert_eq!(pct, 6667);
}

#[test]
fn file_and_snapshot_percentages() {
    let file = FileCoverage::detailed(
        "pkg/app.py".to_string(),
        Language::Python,
        vec![LineHit { line: 1, hits: 1 }, LineHit { line: 2, hits: 0 }],
        vec![branch(1, "0", Some(1)), branch(1, "1", None), branch(1, "2", Some(0))],
        vec![FunctionHit { name: "f".to_string(), line: 1, hits: 3 }],
    );
    assert_eq!(file.coverage_pct(), Some(5000));
    assert_eq!(file.branch_pct(), Some(3333));
    assert_eq!(file.function_pct(), Some(10000));
    let empty = FileCoverage::new("e.py".to_string(), Language::Python, vec![]);
    assert_eq!(empty.coverage_pct(), None);
    assert_eq!(empty.branch_pct(), None);
    assert_eq!(empty.function_pct(), None);
    let snap = snapshot_with(vec![file, empty]);
    assert_eq!(snap.coverage_pct(), Some(5000));
    assert_eq!(snap.branch_pct(), Some(3333));
    assert_eq!(snap.function_pct(), Some(10000));
    assert_eq!(badgers::pct::coverage_pct(1, 8), Some(1250));
    assert_eq!(badgers::pct::coverage_pct(1, 400000), Some(0));
}

#[test]
fn counts_measure_the_input_records() {
    let f = FileCoverage::new(
        "a.py".to_string(),
        Language::Python,
        vec![LineHit { line: 5, hits: 2 }, LineHit { line: 1, hits: 0 }, LineHit { line: 5, hits: 3 }],
    );
    assert_eq!(f.executable_lines(), 2);
    assert_eq!(f.covered_lines(), 1);
    let g = FileCoverage::detailed(
        "b.py".to_string(),
        Language::Python,
        vec![LineHit { line: 1, hits: 1 }],
        vec![
            branch(1, "0", None),
            branch(1, "1", Some(0)),
            branch(1, "2", Some(2)),
            branch(1, "0", Some(0)),
            branch(1, "1", None),
        ],
        vec![],
    );
    assert_eq!(g.total_branches(), 3);
    assert_eq!(g.covered_branches(), 1);
}

#[test]
fn detailed_is_idempotent() {
    let f = FileCoverage::detailed(
        "b.py".to_string(),
        Language::Python,
        vec![LineHit { line: 3, hits: 1 }, LineHit { line: 1, hits: 0 }, LineHit { line: 3, hits: 2 }],
        vec![branch(2, "1", Some(1)), branch(2, "0", None), branch(2, "1", Some(4))],
        vec![
            FunctionHit { name: "g".to_string(), line: 9, hits: 1 },
            FunctionHit { name: "f".to_string(), line: 2, hits: 0 },
            FunctionHit { name: "g".to_string(), line: 7, hits: 2 },
        ],
    );
    let again = FileCoverage::detailed(
        f.path.clone(),
        f.language,
        f.line_hits.clone(),
        f.branches.clone(),
        f.functions.clone(),
    );
    assert_eq!(again, f);
}

#[test]
fn snapshot_executable_lines_count_distinct_path_line_pairs() {
    let input = vec![
        FileCoverage::new(
            "src/x.rs".to_string(),
            Language::Rust,
            vec![LineHit { line: 7, hits: 0 }, LineHit { line: 7, hits: 2 }],
        ),
        FileCoverage::new(
            "src/y.rs".to_string(),
            Language::Rust,
            vec![LineHit { line: 7, hits: 1 }],
        ),
        FileCoverage::new(
            "src/x.rs".to_string(),
            Language::Rust,
            vec![LineHit { line: 9, hits: 0 }, LineHit { line: 7, hits: 1 }],
        ),
    ];
    let mut pairs: Vec<(String, u32)> = Vec::new();
    for f in &input {
        for lh in &f.line_hits {
            let pair = (f.path.clone(), lh.line);
            if !pairs.contains(&pair) {
                pairs.push(pair);
            }
        }
    }
    let snap = snapshot_with(input);
    assert_eq!(pairs.len(), 3);
    assert_eq!(snap.executable_lines(), pairs.len() as u64);
    assert_eq!(snap.covered_lines(), 2);
}
