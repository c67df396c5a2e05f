use manim_rust::atlas::DigitAtlas;
use manim_rust::grid::{ceil_sqrt, grid_columns, grid_plan, GridStep};

#[test]
fn atlas_insert_replaces_and_lookup_finds() {
    let mut atlas: DigitAtlas<&str, f64> = DigitAtlas::new();
    assert!(atlas.is_empty());
    atlas.insert('1', "one", 0.45);
    atlas.insert('2', "two", 0.5);
    atlas.insert('1', "uno", 0.4);
    assert!(!atlas.is_empty());
    assert_eq!(atlas.lookup('1'), Some((&"uno", 0.4)));
    assert_eq!(atlas.lookup('2'), Some((&"two", 0.5)));
    assert_eq!(atlas.lookup('3'), None);
}

#[test]
fn ceil_sqrt_values() {
    assert_eq!(ceil_sqrt(0), 0);
    assert_eq!(ceil_sqrt(1), 1);
    assert_eq!(ceil_sqrt(4), 2);
    assert_eq!(ceil_sqrt(5), 3);
    assert_eq!(ceil_sqrt(10), 4);
    assert_eq!(ceil_sqrt(16), 4);
    assert_eq!(ceil_sqrt(17), 5);
}

#[test]
fn grid_columns_defaults() {
    assert_eq!(grid_columns(4, Some(2), Some(2)), 2);
    assert_eq!(grid_columns(5, None, Some(3)), 3);
    assert_eq!(grid_columns(7, Some(2), None), 4);
    assert_eq!(grid_columns(10, None, None), 3);
    assert_eq!(grid_columns(0, None, None), 1);
    assert_eq!(grid_columns(3, None, Some(0)), 1);
    assert_eq!(grid_columns(3, Some(0), None), 3);
}

#[test]
fn grid_plan_is_rows_of_cols() {
    let kids = [10, 11, 12, 13, 14];
    assert_eq!(
        grid_plan(&kids, 2),
        vec![
            GridStep::Stay,
            GridStep::RightOf { prev: 10, row_start: 10 },
            GridStep::Below { above: 10 },
            GridStep::RightOf { prev: 12, row_start: 12 },
            GridStep::Below { above: 12 },
        ]
    );
}
