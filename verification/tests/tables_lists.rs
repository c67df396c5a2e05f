use manim_rust::errors::TypstError;
use manim_rust::listing::{bar_label_plan, numbered_marker, paragraph_lines, parse_flush, Flush};
use manim_rust::riemann::{rect_count, RiemannSample};
use manim_rust::tabular::{labeled_grid, matrix_source, rule_plan, table_grid, widest_row, Rule};

fn row(items: &[&str]) -> Vec<String> {
    items.iter().map(|s| s.to_string()).collect()
}

fn strings(items: &[&str]) -> Vec<String> {
    row(items)
}

#[test]
fn ragged_table_is_padded_with_spaces() {
    let cells = vec![row(&["a"]), row(&["b", ""]), row(&["c", "d", "e"])];
    assert_eq!(widest_row(&cells), 3);
    let grid = table_grid(&cells, " ").ok().unwrap();
    assert_eq!(
        grid,
        vec![row(&["a", " ", " "]), row(&["b", " ", " "]), row(&["c", "d", "e"])]
    );
}

#[test]
fn math_table_fills_with_dots() {
    let cells = vec![row(&["x^2", ""]), row(&["y"])];
    let grid = table_grid(&cells, ".").ok().unwrap();
    assert_eq!(grid, vec![row(&["x^2", "."]), row(&["y", "."])]);
}

#[test]
fn empty_tables_are_refused() {
    let none: Vec<Vec<String>> = Vec::new();
    match table_grid(&none, " ") {
        Err(TypstError::Compile(m)) => assert_eq!(m, "empty table"),
        _ => panic!("expected a refusal"),
    }
    let blank_rows = vec![Vec::<String>::new(), Vec::new()];
    match table_grid(&blank_rows, " ") {
        Err(TypstError::Compile(m)) => assert_eq!(m, "empty table"),
        _ => panic!("expected a refusal"),
    }
    match labeled_grid(&none, &strings(&["r"]), &strings(&["c"]), "") {
        Err(TypstError::Compile(m)) => assert_eq!(m, "empty table"),
        _ => panic!("expected a refusal"),
    }
}

#[test]
fn labeled_grid_adds_header_and_row_labels() {
    let cells = vec![row(&["1", "2"]), row(&["3"])];
    let grid = labeled_grid(&cells, &strings(&["r1", "r2"]), &strings(&["c1"]), "").ok().unwrap();
    assert_eq!(
        grid,
        vec![
            row(&["·", "c1", " "]),
            row(&["r1", "1", "2"]),
            row(&["r2", "3", " "]),
        ]
    );
    let corner = labeled_grid(&cells, &strings(&["r1"]), &strings(&["c1", "c2"]), "x").ok().unwrap();
    assert_eq!(
        corner,
        vec![row(&["x", "c1", "c2"]), row(&["r1", "1", "2"]), row(&[" ", "3", " "])]
    );
}

#[test]
fn labeled_grid_without_labels_keeps_cells() {
    let cells = vec![row(&["1", ""]), row(&["3", "4"])];
    let grid = labeled_grid(&cells, &[], &[], "corner").ok().unwrap();
    assert_eq!(grid, vec![row(&["1", ""]), row(&["3", "4"])]);
    let cols_only = labeled_grid(&cells, &[], &strings(&["a", "b"]), "corner").ok().unwrap();
    assert_eq!(cols_only[0], row(&["a", "b"]));
}

#[test]
fn matrix_source_joins_rows_and_entries() {
    let rows = vec![row(&["1", "2"]), row(&["3", "4.5"])];
    assert_eq!(matrix_source(&rows).ok().unwrap(), "mat(1, 2; 3, 4.5)");
    assert_eq!(matrix_source(&[row(&["7"])]).ok().unwrap(), "mat(7)");
    match matrix_source(&[]) {
        Err(TypstError::Compile(m)) => assert_eq!(m, "empty matrix"),
        _ => panic!("expected a refusal"),
    }
    match matrix_source(&[row(&["1"]), Vec::new()]) {
        Err(TypstError::Compile(m)) => assert_eq!(m, "empty matrix"),
        _ => panic!("expected a refusal"),
    }
}

#[test]
fn grid_rules_in_drawing_order() {
    assert_eq!(
        rule_plan(2, 3, 6, true, true),
        vec![
            Rule::Top,
            Rule::Bottom,
            Rule::Left,
            Rule::Right,
            Rule::AfterRow(0),
            Rule::AfterCol(0),
            Rule::AfterCol(1),
        ]
    );
    assert_eq!(rule_plan(2, 2, 4, false, true).len(), 4);
    assert_eq!(rule_plan(3, 1, 3, true, false), vec![Rule::AfterRow(0), Rule::AfterRow(1)]);
    assert!(rule_plan(0, 3, 0, true, true).is_empty());
    assert!(rule_plan(2, 2, 0, true, true).is_empty());
}

#[test]
fn paragraph_lines_keep_blank_lines() {
    assert_eq!(paragraph_lines("one\n\nthree"), strings(&["one", " ", "three"]));
    assert_eq!(paragraph_lines(""), strings(&[" "]));
    assert_eq!(paragraph_lines("end\n"), strings(&["end", " "]));
    assert_eq!(paragraph_lines("single"), strings(&["single"]));
}

#[test]
fn paragraph_alignment_words() {
    assert_eq!(parse_flush("left"), Some(Flush::Left));
    assert_eq!(parse_flush("RIGHT"), Some(Flush::Right));
    assert_eq!(parse_flush("Center"), None);
    assert_eq!(parse_flush(" left"), None);
}

#[test]
fn numbered_markers_count_from_one() {
    assert_eq!(numbered_marker(0), "1.");
    assert_eq!(numbered_marker(9), "10.");
    assert_eq!(numbered_marker(122), "123.");
}

#[test]
fn bar_labels_skip_empty_names() {
    assert_eq!(
        bar_label_plan(&strings(&["a", "", "c", "d"]), 3),
        vec![(0, true), (2, true), (3, false)]
    );
    assert!(bar_label_plan(&strings(&["", ""]), 2).is_empty());
}

#[test]
fn riemann_sample_points() {
    assert_eq!(RiemannSample::Left.half_steps(3), 6);
    assert_eq!(RiemannSample::Right.half_steps(3), 8);
    assert_eq!(RiemannSample::Center.half_steps(3), 7);
    assert_eq!(rect_count(0), 1);
    assert_eq!(rect_count(5), 5);
}
