use preflight::diff::{FileStatus, LineKind};
use preflight::parser::parse_diff;

#[test]
fn test_hello() {
    assert_eq!(preflight::hello(), "hello preflight");
}

#[test]
fn lib_test_hello() {
    assert_eq!(preflight::hello(), "hello preflight");
}

#[test]
fn test_empty_input() {
    let result = parse_diff("");
    assert_eq!(result.unwrap(), vec![]);
}

#[test]
fn test_single_modified_file_paths() {
    let input = "\
diff --git a/src/main.rs b/src/main.rs
index abc1234..def5678 100644
--- a/src/main.rs
+++ b/src/main.rs
@@ -1,3 +1,4 @@
 use std::io;
+use std::fs;

 fn main() {
";
    let result = parse_diff(input).unwrap();
    assert_eq!(result.len(), 1);
    assert_eq!(result[0].old_path.as_deref(), Some("src/main.rs"));
    assert_eq!(result[0].new_path.as_deref(), Some("src/main.rs"));
    assert_eq!(result[0].status, FileStatus::Modified);
}

#[test]
fn test_new_file_status() {
    let input = "\
diff --git a/src/new.rs b/src/new.rs
new file mode 100644
index 0000000..abc1234
--- /dev/null
+++ b/src/new.rs
@@ -0,0 +1,3 @@
+fn hello() {
+    println!(\"hello\");
+}
";
    let result = parse_diff(input).unwrap();
    assert_eq!(result.len(), 1);
    assert_eq!(result[0].old_path, None);
    assert_eq!(result[0].new_path.as_deref(), Some("src/new.rs"));
    assert_eq!(result[0].status, FileStatus::Added);
}

#[test]
fn test_deleted_file_status() {
    let input = "\
diff --git a/src/old.rs b/src/old.rs
deleted file mode 100644
index abc1234..0000000
--- a/src/old.rs
+++ /dev/null
@@ -1,3 +0,0 @@
-fn goodbye() {
-    println!(\"bye\");
-}
";
    let result = parse_diff(input).unwrap();
    assert_eq!(result.len(), 1);
    assert_eq!(result[0].old_path.as_deref(), Some("src/old.rs"));
    assert_eq!(result[0].new_path, None);
    assert_eq!(result[0].status, FileStatus::Deleted);
}

#[test]
fn test_renamed_file_status() {
    let input = "\
diff --git a/src/old_name.rs b/src/new_name.rs
similarity index 95%
rename from src/old_name.rs
rename to src/new_name.rs
index abc1234..def5678 100644
--- a/src/old_name.rs
+++ b/src/new_name.rs
@@ -1,3 +1,3 @@
-fn old() {}
+fn new() {}
";
    let result = parse_diff(input).unwrap();
    assert_eq!(result.len(), 1);
    assert_eq!(result[0].old_path.as_deref(), Some("src/old_name.rs"));
    assert_eq!(result[0].new_path.as_deref(), Some("src/new_name.rs"));
    assert_eq!(result[0].status, FileStatus::Renamed);
}

#[test]
fn test_binary_file() {
    let input = "\
diff --git a/image.png b/image.png
new file mode 100644
index 0000000..abc1234
Binary files /dev/null and b/image.png differ
";
    let result = parse_diff(input).unwrap();
    assert_eq!(result.len(), 1);
    assert_eq!(result[0].status, FileStatus::Binary);
    assert!(result[0].hunks.is_empty());
}

#[test]
fn test_multiple_files() {
    let input = "\
diff --git a/src/a.rs b/src/a.rs
index abc..def 100644
--- a/src/a.rs
+++ b/src/a.rs
@@ -1,2 +1,3 @@
 line1
+line2
 line3
diff --git a/src/b.rs b/src/b.rs
index abc..def 100644
--- a/src/b.rs
+++ b/src/b.rs
@@ -1,2 +1,2 @@
-old
+new
 same
";
    let result = parse_diff(input).unwrap();
    assert_eq!(result.len(), 2);
    assert_eq!(result[0].new_path.as_deref(), Some("src/a.rs"));
    assert_eq!(result[1].new_path.as_deref(), Some("src/b.rs"));
}

#[test]
fn test_hunk_header_parsing() {
    let input = "\
diff --git a/src/main.rs b/src/main.rs
index abc..def 100644
--- a/src/main.rs
+++ b/src/main.rs
@@ -10,6 +10,7 @@ fn existing_function() {
 context line
+added line
 more context
";
    let result = parse_diff(input).unwrap();
    assert_eq!(result[0].hunks.len(), 1);
    let hunk = &result[0].hunks[0];
    assert_eq!(hunk.old_start, 10);
    assert_eq!(hunk.old_count, 6);
    assert_eq!(hunk.new_start, 10);
    assert_eq!(hunk.new_count, 7);
    assert_eq!(hunk.context.as_deref(), Some("fn existing_function() {"));
}

#[test]
fn test_hunk_header_no_context() {
    let input = "\
diff --git a/src/main.rs b/src/main.rs
index abc..def 100644
--- a/src/main.rs
+++ b/src/main.rs
@@ -1,3 +1,4 @@
 line1
+line2
 line3
 line4
";
    let result = parse_diff(input).unwrap();
    assert_eq!(result[0].hunks[0].context, None);
}

#[test]
fn test_line_classification() {
    let input = "\
diff --git a/src/main.rs b/src/main.rs
index abc..def 100644
--- a/src/main.rs
+++ b/src/main.rs
@@ -1,4 +1,4 @@
 unchanged
-removed line
+added line
 also unchanged
";
    let result = parse_diff(input).unwrap();
    let lines = &result[0].hunks[0].lines;
    assert_eq!(lines.len(), 4);
    assert_eq!(lines[0].kind, LineKind::Context);
    assert_eq!(lines[0].content, "unchanged");
    assert_eq!(lines[1].kind, LineKind::Removed);
    assert_eq!(lines[1].content, "removed line");
    assert_eq!(lines[2].kind, LineKind::Added);
    assert_eq!(lines[2].content, "added line");
    assert_eq!(lines[3].kind, LineKind::Context);
    assert_eq!(lines[3].content, "also unchanged");
}

#[test]
fn test_line_numbers() {
    let input = "\
diff --git a/src/main.rs b/src/main.rs
index abc..def 100644
--- a/src/main.rs
+++ b/src/main.rs
@@ -5,4 +5,5 @@
 context
-old
+new1
+new2
 context
";
    let result = parse_diff(input).unwrap();
    let lines = &result[0].hunks[0].lines;
    assert_eq!(lines[0].old_line_no, Some(5));
    assert_eq!(lines[0].new_line_no, Some(5));
    assert_eq!(lines[1].old_line_no, Some(6));
    assert_eq!(lines[1].new_line_no, None);
    assert_eq!(lines[2].old_line_no, None);
    assert_eq!(lines[2].new_line_no, Some(6));
    assert_eq!(lines[3].old_line_no, None);
    assert_eq!(lines[3].new_line_no, Some(7));
    assert_eq!(lines[4].old_line_no, Some(7));
    assert_eq!(lines[4].new_line_no, Some(8));
}

#[test]
fn test_multiple_hunks() {
    let input = "\
diff --git a/src/main.rs b/src/main.rs
index abc..def 100644
--- a/src/main.rs
+++ b/src/main.rs
@@ -1,3 +1,4 @@
 first
+inserted
 second
 third
@@ -10,3 +11,4 @@
 tenth
+another
 eleventh
 twelfth
";
    let result = parse_diff(input).unwrap();
    assert_eq!(result[0].hunks.len(), 2);
    assert_eq!(result[0].hunks[0].old_start, 1);
    assert_eq!(result[0].hunks[1].old_start, 10);
    assert_eq!(result[0].hunks[1].new_start, 11);
}

#[test]
fn test_empty_line_in_hunk() {
    let input = "diff --git a/f b/f\nindex abc..def 100644\n--- a/f\n+++ b/f\n@@ -1,3 +1,3 @@\n first\n\n last\n";
    let result = parse_diff(input).unwrap();
    let lines = &result[0].hunks[0].lines;
    assert_eq!(lines.len(), 3);
    assert_eq!(lines[0].kind, LineKind::Context);
    assert_eq!(lines[0].content, "first");
    assert_eq!(lines[1].kind, LineKind::Context);
    assert_eq!(lines[1].content, "");
    assert_eq!(lines[2].kind, LineKind::Context);
    assert_eq!(lines[2].content, "last");
}

#[test]
fn test_hunk_count_omitted_means_one() {
    let input = "\
diff --git a/f b/f
index abc..def 100644
--- a/f
+++ b/f
@@ -1 +1,2 @@
 only line
+new line
";
    let result = parse_diff(input).unwrap();
    let hunk = &result[0].hunks[0];
    assert_eq!(hunk.old_start, 1);
    assert_eq!(hunk.old_count, 1);
    assert_eq!(hunk.new_start, 1);
    assert_eq!(hunk.new_count, 2);
}

#[test]
fn test_malformed_hunk_header_fails() {
    let input = "\
diff --git a/f b/f
--- a/f
+++ b/f
@@ bogus @@
 line
";
    let err = parse_diff(input).unwrap_err();
    // the bad header sits on input line 4
    assert_eq!(err.line, 4);
}

#[test]
fn test_bad_range_spec_fails() {
    let input = "\
diff --git a/f b/f
--- a/f
+++ b/f
@@ -x,3 +1,3 @@
 line
";
    assert!(parse_diff(input).is_err());
}

#[test]
fn test_no_newline_marker_skipped() {
    let input = "\
diff --git a/f b/f
--- a/f
+++ b/f
@@ -1 +1 @@
-old
\\ No newline at end of file
+new
\\ No newline at end of file
";
    let result = parse_diff(input).unwrap();
    let lines = &result[0].hunks[0].lines;
    assert_eq!(lines.len(), 2);
    assert_eq!(lines[0].kind, LineKind::Removed);
    assert_eq!(lines[1].kind, LineKind::Added);
}

#[test]
fn test_input_without_diff_marker_is_empty() {
    let result = parse_diff("just some text\nwith lines\n").unwrap();
    assert!(result.is_empty());
}
