use nbedit::diff::{diff_cells, diff_report, line_diff, DiffOp};
use nbedit::notebook::Cell;

fn diff_code(src: &str) -> Cell {
    let mut c = Cell::new("code");
    c.set_source(src.to_string());
    c
}

#[test]
fn identical_cells_are_all_keeps() {
    let cells = vec![diff_code("x = 1"), diff_code("y = 2")];
    let copy = vec![diff_code("x = 1"), diff_code("y = 2")];
    let ops = diff_cells(&cells, &copy);
    assert!(ops.iter().all(|op| matches!(op, DiffOp::Keep(_, _))));
}

#[test]
fn added_cell_detected() {
    let ops = diff_cells(&[diff_code("x = 1")], &[diff_code("x = 1"), diff_code("y = 2")]);
    assert_eq!(ops.iter().filter(|op| matches!(op, DiffOp::Add(_))).count(), 1);
}

#[test]
fn removed_cell_detected() {
    let ops = diff_cells(&[diff_code("x = 1"), diff_code("y = 2")], &[diff_code("x = 1")]);
    assert_eq!(
        ops.iter().filter(|op| matches!(op, DiffOp::Remove(_))).count(),
        1
    );
}

#[test]
fn changed_cell_detected() {
    let ops = diff_cells(&[diff_code("x = 1")], &[diff_code("x = 99")]);
    assert_eq!(
        ops.iter()
            .filter(|op| matches!(op, DiffOp::Change(_, _)))
            .count(),
        1
    );
}

#[test]
fn kept_cells_are_not_reported_as_changed() {
    let ops = diff_cells(&[diff_code("shared"), diff_code("old")], &[diff_code("shared"), diff_code("new")]);
    assert_eq!(
        ops.iter().filter(|op| matches!(op, DiffOp::Keep(_, _))).count(),
        1
    );
    assert_eq!(
        ops.iter()
            .filter(|op| matches!(op, DiffOp::Change(_, _)))
            .count(),
        1
    );
}

#[test]
fn cell_type_is_part_of_the_key() {
    let mut md = Cell::new("markdown");
    md.set_source("x".to_string());
    let ops = diff_cells(&[diff_code("x")], &[md]);
    assert_eq!(ops, vec![DiffOp::Change(0, 0)]);
}

#[test]
fn report_lists_the_differences() {
    let r = diff_report(&[diff_code("a"), diff_code("old")], &[diff_code("a"), diff_code("new"), diff_code("extra\n")], false);
    assert_eq!(r.changed, 2);
    assert_eq!(
        r.lines,
        vec![
            "+ [Cell 2 | code]",
            "+ new",
            "",
            "~ [Cell 2→3 | code]",
            "  extra",
            ""
        ]
    );
    let same = diff_report(&[diff_code("a")], &[diff_code("a")], false);
    assert_eq!(same.changed, 0);
    assert!(same.lines.is_empty());
}

#[test]
fn detailed_report_aligns_lines() {
    let r = diff_report(&[diff_code("a\nb\nc")], &[diff_code("a\nB\nc")], true);
    assert_eq!(
        r.lines,
        vec!["~ [Cell 1→1 | code]", "    a", "  - b", "  + B", "    c", ""]
    );
}

#[test]
fn line_diff_marks_kept_added_and_removed_lines() {
    let ops = line_diff("x\ny", "x\nz\ny");
    let marks: Vec<(char, String)> = ops
        .into_iter()
        .map(|(m, l)| (m, l.into_iter().collect()))
        .collect();
    assert_eq!(
        marks,
        vec![
            (' ', "x".to_string()),
            ('+', "z".to_string()),
            (' ', "y".to_string())
        ]
    );
}
