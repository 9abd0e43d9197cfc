use badgers::diff::parse_unified_diff;

fn lines_of(changed: &badgers::compare::ChangedLines, path: &str) -> Vec<u32> {
    changed.for_path(path).unwrap().iter().copied().collect::<Vec<_>>()
}

#[test]
fn parses_added_and_modified_hunks() {
    let diff = "\
diff --git a/pkg/calc.py b/pkg/calc.py
index 111..222 100644
--- a/pkg/calc.py
+++ b/pkg/calc.py
@@ -10,0 +11,3 @@ def classify(n):
+    if n == 0:
+        return \"zero\"
+    return None
@@ -20 +23 @@ def other():
-    old
+    new
";
    let changed = parse_unified_diff(diff);
    assert_eq!(lines_of(&changed, "pkg/calc.py"), vec![11, 12, 13, 23]);
}

#[test]
fn skips_deleted_files_and_pure_deletions() {
    let diff = "\
--- a/gone.py
+++ /dev/null
@@ -1,3 +0,0 @@
-a
-b
-c
--- a/kept.py
+++ b/kept.py
@@ -5,2 +5,0 @@
-x
-y
";
    let changed = parse_unified_diff(diff);
    assert!(changed.for_path("gone.py").is_none());
    assert!(changed.for_path("kept.py").is_none());
}

#[test]
fn handles_no_prefix_paths() {
    let diff = "\
--- kept.py
+++ kept.py
@@ -1 +1,2 @@
+added
 ctx
";
    let changed = parse_unified_diff(diff);
    assert_eq!(lines_of(&changed, "kept.py"), vec![1]);
}

#[test]
fn ignores_context_lines_around_additions() {
    let diff = "\
diff --git a/pkg/calc.py b/pkg/calc.py
--- a/pkg/calc.py
+++ b/pkg/calc.py
@@ -1,5 +1,6 @@
 one
 two
+inserted
 three
 four
 five
";
    let changed = parse_unified_diff(diff);
    assert_eq!(lines_of(&changed, "pkg/calc.py"), vec![3]);
}

#[test]
fn tracks_new_side_across_deletions_and_no_newline_markers() {
    let diff = "\
--- a/pkg/calc.py
+++ b/pkg/calc.py
@@ -1,6 +1,5 @@
 keep
-removed
-also removed
+replacement
 tail
\\ No newline at end of file
+appended
";
    let changed = parse_unified_diff(diff);
    assert_eq!(lines_of(&changed, "pkg/calc.py"), vec![2, 4]);
}

#[test]
fn parses_multiple_files_in_one_diff() {
    let diff = "\
diff --git a/a.rs b/a.rs
--- a/a.rs
+++ b/a.rs
@@ -10,3 +10,4 @@ fn a() {
 ctx
+added_in_a
 ctx
 ctx
diff --git a/b.rs b/b.rs
--- a/b.rs
+++ b/b.rs
@@ -1,2 +1,3 @@
 ctx
+added_in_b
 ctx
";
    let changed = parse_unified_diff(diff);
    assert_eq!(lines_of(&changed, "a.rs"), vec![11]);
    assert_eq!(lines_of(&changed, "b.rs"), vec![2]);
}

#[test]
fn hunk_header_tolerates_tabs_plus_signs_and_crlf() {
    let diff = "--- a/x.py\r\n+++ b/x.py\t2026-01-01\r\n@@ -1  \t+7,2 @@\r\n+a\r\n+b\r\n";
    let changed = parse_unified_diff(diff);
    assert_eq!(lines_of(&changed, "x.py"), vec![7, 8]);
}

#[test]
fn lines_before_any_hunk_are_not_marked() {
    let diff = "+++ b/y.py\n+not in a hunk\n";
    let changed = parse_unified_diff(diff);
    assert!(changed.for_path("y.py").is_none());
}

#[test]
fn line_numbers_that_would_overflow_are_detected() {
    let fine = "+++ b/a.rs\n@@ -1,0 +4294967294,2 @@\n+x\n";
    assert!(badgers::diff::diff_line_numbers_fit(fine));
    let over = "+++ b/a.rs\n@@ -1,0 +4294967295,2 @@\n+x\n+y\n";
    assert!(!badgers::diff::diff_line_numbers_fit(over));
    assert!(badgers::diff::diff_line_numbers_fit(""));
}
