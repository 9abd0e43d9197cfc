use badgers::lcov::{
    LcovError, ParseOptions, normalize_sf_path, parse_brda, parse_fn, parse_fnda, parse_lcov,
};
use badgers::model::{BranchHit, FileCoverage, FunctionHit, Language, LineHit};

fn opts(root: &str) -> ParseOptions<'_> {
    ParseOptions { repo_root: root }
}

fn norm(raw: &str) -> Option<String> {
    normalize_sf_path(raw, "/repo")
}

#[test]
fn normalize_relative_and_dot_segments() {
    assert_eq!(norm("./pkg/app.py"), Some("pkg/app.py".to_string()));
    assert_eq!(norm("pkg/sub/../app.py"), Some("pkg/app.py".to_string()));
    assert_eq!(norm("pkg\\win\\style.py"), Some("pkg/win/style.py".to_string()));
}

#[test]
fn normalize_absolute_paths_against_root() {
    assert_eq!(norm("/repo/src/a.py"), Some("src/a.py".to_string()));
    assert_eq!(norm("/usr/lib/python3/os.py"), None);
}

#[test]
fn normalize_rejects_escaping_root() {
    assert_eq!(norm("../outside.py"), None);
    assert_eq!(norm("."), None);
}

#[test]
fn normalize_compares_whole_root_components() {
    assert_eq!(norm("/repository/a.py"), None);
    assert_eq!(norm("/repo//src/./a.py"), Some("src/a.py".to_string()));
    assert_eq!(norm("/repo"), None);
    assert_eq!(normalize_sf_path("/srv/x.py", "relative/root"), None);
    assert_eq!(normalize_sf_path("/srv/x.py", "/"), Some("srv/x.py".to_string()));
}

#[test]
fn parse_fn_supports_optional_end_line_and_comma_names() {
    assert_eq!(parse_fn("12,main"), Some((12, "main".to_string())));
    assert_eq!(parse_fn("12,40,main"), Some((12, "main".to_string())));
    assert_eq!(
        parse_fn("12,operator<(a, b)"),
        Some((12, "operator<(a, b)".to_string()))
    );
    assert_eq!(parse_fn("abc,main"), None);
    assert_eq!(parse_fn("12"), None);
}

#[test]
fn parse_fnda_reads_count_and_name() {
    assert_eq!(parse_fnda("3,main"), Some((3, "main".to_string())));
    assert_eq!(parse_fnda("3, a, b "), Some((3, "a, b".to_string())));
    assert_eq!(parse_fnda("x,main"), None);
    assert_eq!(parse_fnda("3,  "), None);
}

#[test]
fn parse_brda_supports_dash_and_comma_expressions() {
    assert_eq!(
        parse_brda("7,0,1,4"),
        Some((7, "0".to_string(), "1".to_string(), Some(4)))
    );
    assert_eq!(
        parse_brda("7,0,0,-"),
        Some((7, "0".to_string(), "0".to_string(), None))
    );
    assert_eq!(
        parse_brda("7,e0,cond(a, b),0"),
        Some((7, "e0".to_string(), "cond(a, b)".to_string(), Some(0)))
    );
    assert_eq!(parse_brda("7,0,1"), None);
    assert_eq!(parse_brda("x,0,1,2"), None);
}

#[test]
fn parse_brda_rejects_zero_lines_and_empty_identifiers() {
    assert_eq!(parse_brda("0,0,1,1"), None);
    assert_eq!(parse_brda("1,,1,1"), None);
    assert_eq!(parse_brda("1, ,1,1"), None);
    assert_eq!(parse_brda("1,0,,1"), None);
    assert_eq!(parse_brda("1,0, ,-"), None);
}

const PYTHON_BASIC: &str = "\
TN:
SF:/repo/pkg/app.py
DA:1,1
DA:2,1
DA:3,0
DA:5,4
LF:4
LH:3
end_of_record
SF:pkg/util.py
DA:1,1
DA:2,0
LF:2
LH:1
end_of_record
";

const MIXED_RECORDS: &str = "\
TN:unit
SF:src/main.rs
FN:1,main
FNDA:3,main
FNF:1
FNH:1
DA:1,3,0f1e2d
DA:2,3,a1b2c3
DA:3,1
LF:3
LH:3
BRDA:2,0,0,1
BRDA:2,0,1,0
BRF:2
BRH:1
end_of_record
";

#[test]
fn parses_basic_python_lcov() {
    let outcome = parse_lcov(PYTHON_BASIC, &opts("/repo")).unwrap();
    assert!(outcome.warnings.is_empty(), "{:?}", outcome.warnings);
    assert_eq!(outcome.files.len(), 2);

    let app = &outcome.files[0];
    assert_eq!(app.path, "pkg/app.py");
    assert_eq!(app.language, Language::Python);
    assert_eq!(app.executable_lines(), 4);
    assert_eq!(app.covered_lines(), 3);
    assert_eq!(
        app.line_hits,
        vec![
            LineHit { line: 1, hits: 1 },
            LineHit { line: 2, hits: 1 },
            LineHit { line: 3, hits: 0 },
            LineHit { line: 5, hits: 4 },
        ]
    );

    let util = &outcome.files[1];
    assert_eq!(util.path, "pkg/util.py");
    assert_eq!(util.executable_lines(), 2);
    assert_eq!(util.covered_lines(), 1);
}

#[test]
fn parses_function_and_branch_records_and_ignores_da_checksum() {
    let outcome = parse_lcov(MIXED_RECORDS, &opts("/repo")).unwrap();
    assert!(outcome.warnings.is_empty(), "{:?}", outcome.warnings);
    assert_eq!(outcome.files.len(), 1);
    let file = &outcome.files[0];
    assert_eq!(file.executable_lines(), 3);
    assert_eq!(file.covered_lines(), 3);
    assert_eq!(file.line_hits[1], LineHit { line: 2, hits: 3 });

    assert_eq!(
        file.functions,
        vec![FunctionHit {
            name: "main".to_string(),
            line: 1,
            hits: 3,
        }]
    );
    assert_eq!(file.total_functions(), 1);
    assert_eq!(file.covered_functions(), 1);

    assert_eq!(
        file.branches,
        vec![
            BranchHit {
                line: 2,
                block: "0".to_string(),
                branch: "0".to_string(),
                taken: Some(1),
            },
            BranchHit {
                line: 2,
                block: "0".to_string(),
                branch: "1".to_string(),
                taken: Some(0),
            },
        ]
    );
    assert_eq!(file.total_branches(), 2);
    assert_eq!(file.covered_branches(), 1);
}

#[test]
fn merges_dash_branches_across_repeated_sf_blocks() {
    let input = "\
SF:a.dart
DA:1,0
BRDA:1,0,0,-
BRDA:1,0,1,-
end_of_record
SF:a.dart
DA:1,2
BRDA:1,0,0,2
BRDA:1,0,1,-
end_of_record
";
    let outcome = parse_lcov(input, &opts("/repo")).unwrap();
    assert!(outcome.warnings.is_empty(), "{:?}", outcome.warnings);
    let file = &outcome.files[0];
    assert_eq!(
        file.branches,
        vec![
            BranchHit {
                line: 1,
                block: "0".to_string(),
                branch: "0".to_string(),
                taken: Some(2),
            },
            BranchHit {
                line: 1,
                block: "0".to_string(),
                branch: "1".to_string(),
                taken: None,
            },
        ]
    );
    assert_eq!(file.covered_branches(), 1);
}

#[test]
fn warns_on_malformed_function_and_branch_records_without_failing() {
    let input = "\
SF:a.py
DA:1,1
FN:notaline,main
FNDA:notacount,main
BRDA:1,0,0
end_of_record
";
    let outcome = parse_lcov(input, &opts("/repo")).unwrap();
    assert_eq!(outcome.files.len(), 1);
    assert!(outcome.files[0].functions.is_empty());
    assert!(outcome.files[0].branches.is_empty());
    assert_eq!(outcome.warnings.len(), 3);
    assert!(outcome.warnings[0].contains("malformed FN"));
    assert!(outcome.warnings[1].contains("malformed FNDA"));
    assert!(outcome.warnings[2].contains("malformed BRDA"));
}

#[test]
fn warns_on_function_and_branch_summary_mismatches() {
    let input = "\
SF:a.py
DA:1,1
FN:1,main
FNDA:0,main
FNF:2
FNH:1
BRDA:1,0,0,1
BRF:2
BRH:0
end_of_record
";
    let outcome = parse_lcov(input, &opts("/repo")).unwrap();
    assert_eq!(outcome.warnings.len(), 4);
    assert!(outcome.warnings[0].contains("FNF=2"));
    assert!(outcome.warnings[1].contains("FNH=1"));
    assert!(outcome.warnings[2].contains("BRF=2"));
    assert!(outcome.warnings[3].contains("BRH=0"));
}

#[test]
fn merges_duplicate_da_lines_and_repeated_sf_blocks() {
    let input = "\
SF:a.py
DA:1,1
DA:1,2
DA:2,0
end_of_record
SF:a.py
DA:2,5
end_of_record
";
    let outcome = parse_lcov(input, &opts("/repo")).unwrap();
    assert_eq!(outcome.files.len(), 1);
    assert_eq!(
        outcome.files[0].line_hits,
        vec![LineHit { line: 1, hits: 3 }, LineHit { line: 2, hits: 5 }]
    );
}

#[test]
fn warns_on_lf_lh_mismatch() {
    let input = "\
SF:a.py
DA:1,1
LF:2
LH:0
end_of_record
";
    let outcome = parse_lcov(input, &opts("/repo")).unwrap();
    assert_eq!(outcome.warnings.len(), 2);
    assert!(outcome.warnings[0].contains("LF=2"));
    assert!(outcome.warnings[1].contains("LH=0"));
}

#[test]
fn normalizes_absolute_paths_and_drops_out_of_root() {
    let input = "\
SF:/repo/src/inside.py
DA:1,1
end_of_record
SF:/usr/lib/python3.14/os.py
DA:1,9
end_of_record
";
    let outcome = parse_lcov(input, &opts("/repo")).unwrap();
    assert_eq!(outcome.files.len(), 1);
    assert_eq!(outcome.files[0].path, "src/inside.py");
    assert_eq!(outcome.warnings.len(), 1);
    assert!(outcome.warnings[0].contains("outside repo root"));
}

#[test]
fn errors_on_da_before_sf() {
    let err = parse_lcov("DA:1,1\n", &opts("/repo")).unwrap_err();
    let LcovError::Malformed { line, message } = err;
    assert_eq!(line, 1);
    assert!(message.contains("DA before SF"));
}

#[test]
fn errors_on_malformed_da() {
    let input = "SF:a.py\nDA:abc,1\nend_of_record\n";
    let err = parse_lcov(input, &opts("/repo")).unwrap_err();
    let LcovError::Malformed { line, .. } = err;
    assert_eq!(line, 2);
}

#[test]
fn errors_on_unterminated_record() {
    let input = "SF:a.py\nDA:1,1\n";
    let err = parse_lcov(input, &opts("/repo")).unwrap_err();
    let LcovError::Malformed { message, .. } = err;
    assert!(message.contains("unterminated record"));
}

#[test]
fn errors_on_end_of_record_without_sf() {
    let err = parse_lcov("end_of_record\n", &opts("/repo")).unwrap_err();
    let LcovError::Malformed { message, .. } = err;
    assert!(message.contains("without preceding SF"));
}

#[test]
fn exact_messages_and_line_numbers() {
    let err = parse_lcov("\n\nSF:a.py\nSF:b.py\n", &opts("/repo")).unwrap_err();
    assert_eq!(
        err.describe(),
        "lcov parse error at line 4: SF while previous record is still open (missing end_of_record)"
    );
    let err = parse_lcov("SF:a.py\nDA:3\n", &opts("/repo")).unwrap_err();
    assert_eq!(err.describe(), "lcov parse error at line 2: DA missing hit count");
    let err = parse_lcov("SF:a.py\nLF: x\n", &opts("/repo")).unwrap_err();
    assert_eq!(err.describe(), "lcov parse error at line 2: LF has invalid count ' x'");
    let err = parse_lcov("SF:a.py\nDA:1,1\n", &opts("/repo")).unwrap_err();
    assert_eq!(
        err.describe(),
        "lcov parse error at line 2: unterminated record for 'a.py' (missing end_of_record)"
    );
    let outcome = parse_lcov("junk\nFN:1,f\nSF:a.py\nBRF:x\nDA:1,1\nLF:3\nend_of_record\n", &opts("/repo")).unwrap();
    assert_eq!(
        outcome.warnings,
        vec![
            "line 1: unrecognized line skipped: junk".to_string(),
            "line 2: FN before SF skipped".to_string(),
            "line 4: BRF has invalid count 'x'".to_string(),
            "a.py: LF=3 disagrees with 1 DA lines".to_string(),
        ]
    );
}

#[test]
fn parsed_files_have_clean_paths_and_are_normal() {
    let input = "\
SF:./src//b.py
DA:2,1
DA:2,3
DA:1,0
end_of_record
SF:src\\sub\\..\\a.rs
DA:4,1
BRDA:4,0,1,-
BRDA:4,0,1,2
FN:4,main
FNDA:5,main
end_of_record
SF:/repo/./src/b.py
DA:3,1
end_of_record
";
    let outcome = parse_lcov(input, &opts("/repo")).unwrap();
    let paths: Vec<&str> = outcome.files.iter().map(|f| f.path.as_str()).collect();
    assert_eq!(paths, vec!["src/a.rs", "src/b.py"]);
    for (i, f) in outcome.files.iter().enumerate() {
        assert!(!f.path.starts_with('/'));
        assert!(!f.path.contains('\\'));
        for segment in f.path.split('/') {
            assert!(!segment.is_empty() && segment != "." && segment != "..");
        }
        if i > 0 {
            assert!(outcome.files[i - 1].path < f.path);
        }
        assert_eq!(f.language, Language::from_path(&f.path));
        let again = FileCoverage::detailed(
            f.path.clone(),
            f.language,
            f.line_hits.clone(),
            f.branches.clone(),
            f.functions.clone(),
        );
        assert_eq!(&again, f);
    }
    assert_eq!(outcome.files[1].line_hits.len(), 3);
}
