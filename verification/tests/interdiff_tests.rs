use preflight::diff::{DiffLine, Hunk, LineKind};
use preflight::interdiff::{compute_interdiff, reconstruct_file_contents, reconstruct_from_hunks};

fn make_hunk(
    old_start: u32,
    old_count: u32,
    new_start: u32,
    new_count: u32,
    lines: Vec<DiffLine>,
) -> Hunk {
    Hunk {
        old_start,
        old_count,
        new_start,
        new_count,
        context: None,
        lines,
    }
}

fn ctx(content: &str, old: u32, new: u32) -> DiffLine {
    DiffLine {
        kind: LineKind::Context,
        content: content.into(),
        old_line_no: Some(old),
        new_line_no: Some(new),
        highlighted: None,
    }
}

fn add(content: &str, new: u32) -> DiffLine {
    DiffLine {
        kind: LineKind::Added,
        content: content.into(),
        old_line_no: None,
        new_line_no: Some(new),
        highlighted: None,
    }
}

fn rem(content: &str, old: u32) -> DiffLine {
    DiffLine {
        kind: LineKind::Removed,
        content: content.into(),
        old_line_no: Some(old),
        new_line_no: None,
        highlighted: None,
    }
}

#[test]
fn reconstruct_simple_addition() {
    let base = "line1\nline2\nline3\n";
    let hunks = vec![make_hunk(
        1,
        3,
        1,
        4,
        vec![
            ctx("line1", 1, 1),
            add("new_line", 2),
            ctx("line2", 2, 3),
            ctx("line3", 3, 4),
        ],
    )];
    let result = reconstruct_from_hunks(base, &hunks);
    assert_eq!(result, "line1\nnew_line\nline2\nline3\n");
}

#[test]
fn reconstruct_removal() {
    let base = "a\nb\nc\n";
    let hunks = vec![make_hunk(1, 3, 1, 2, vec![ctx("a", 1, 1), rem("b", 2), ctx("c", 3, 2)])];
    let result = reconstruct_from_hunks(base, &hunks);
    assert_eq!(result, "a\nc\n");
}

#[test]
fn reconstruct_keeps_tail_of_base() {
    let base = "a\nb\nc\nd\n";
    let hunks = vec![make_hunk(2, 1, 2, 1, vec![rem("b", 2), add("B", 2)])];
    let result = reconstruct_from_hunks(base, &hunks);
    assert_eq!(result, "a\nB\nc\nd\n");
}

#[test]
fn no_changes_between_revisions() {
    let base = "a\nb\nc\n";
    let hunks = vec![make_hunk(
        1,
        3,
        1,
        4,
        vec![ctx("a", 1, 1), add("x", 2), ctx("b", 2, 3), ctx("c", 3, 4)],
    )];
    let result = compute_interdiff(base, &hunks, &hunks);
    assert!(
        result.is_empty()
            || result
                .iter()
                .all(|h| h.lines.iter().all(|l| l.kind == LineKind::Context))
    );
}

#[test]
fn interdiff_detects_added_line() {
    let base = "a\nb\nc\n";
    let from_hunks = vec![make_hunk(
        1,
        3,
        1,
        4,
        vec![ctx("a", 1, 1), add("x", 2), ctx("b", 2, 3), ctx("c", 3, 4)],
    )];
    let to_hunks = vec![make_hunk(
        1,
        3,
        1,
        5,
        vec![
            ctx("a", 1, 1),
            add("x", 2),
            add("y", 3),
            ctx("b", 2, 4),
            ctx("c", 3, 5),
        ],
    )];
    let interdiff = compute_interdiff(base, &from_hunks, &to_hunks);
    let added: Vec<_> = interdiff
        .iter()
        .flat_map(|h| &h.lines)
        .filter(|l| l.kind == LineKind::Added)
        .collect();
    assert!(!added.is_empty());
    assert_eq!(added[0].content, "y");
}

#[test]
fn interdiff_identity_is_empty() {
    let base = "one\ntwo\nthree\n";
    let hunks = vec![make_hunk(2, 1, 2, 1, vec![rem("two", 2), add("TWO", 2)])];
    let result = compute_interdiff(base, &hunks, &hunks);
    assert!(result.is_empty());
}

#[test]
fn file_contents_reconstructed_from_hunks() {
    let hunks = vec![make_hunk(
        1,
        2,
        1,
        3,
        vec![ctx("fn main() {", 1, 1), add("    hi();", 2), ctx("}", 2, 3)],
    )];
    let (old_body, new_body) = reconstruct_file_contents(&hunks);
    assert_eq!(old_body, "fn main() {\n}\n");
    assert_eq!(new_body, "fn main() {\n    hi();\n}\n");
}

#[test]
fn file_contents_fill_missing_rows_empty() {
    let hunks = vec![make_hunk(3, 1, 3, 1, vec![ctx("third", 3, 3)])];
    let (old_body, new_body) = reconstruct_file_contents(&hunks);
    assert_eq!(old_body, "\n\nthird\n");
    assert_eq!(new_body, "\n\nthird\n");
}
