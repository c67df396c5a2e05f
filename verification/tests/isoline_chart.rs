use manim_rust::chart::bar_colors;
use manim_rust::isoline::{cell_segments, Side};
use manim_rust::palette::{blue, gold, purple, red, teal};

#[test]
fn uniform_cells_draw_nothing() {
    assert!(cell_segments(false, false, false, false, false).is_empty());
    assert!(cell_segments(true, true, true, true, true).is_empty());
}

#[test]
fn one_negative_corner_cuts_that_corner() {
    assert_eq!(cell_segments(true, false, false, false, false), vec![(Side::West, Side::South)]);
    assert_eq!(cell_segments(false, true, false, false, false), vec![(Side::South, Side::East)]);
    assert_eq!(cell_segments(false, false, true, false, false), vec![(Side::East, Side::North)]);
    assert_eq!(cell_segments(false, false, false, true, false), vec![(Side::West, Side::North)]);
}

#[test]
fn half_negative_cells_cut_straight_across() {
    assert_eq!(cell_segments(true, true, false, false, false), vec![(Side::West, Side::East)]);
    assert_eq!(cell_segments(false, true, true, false, false), vec![(Side::South, Side::North)]);
}

#[test]
fn saddles_follow_the_center() {
    assert_eq!(
        cell_segments(true, false, true, false, true),
        vec![(Side::West, Side::North), (Side::South, Side::East)]
    );
    assert_eq!(
        cell_segments(true, false, true, false, false),
        vec![(Side::West, Side::South), (Side::East, Side::North)]
    );
    assert_eq!(
        cell_segments(false, true, false, true, true),
        vec![(Side::West, Side::South), (Side::East, Side::North)]
    );
}

#[test]
fn every_sign_change_gets_one_end() {
    for bits in 0..16u8 {
        for center in [false, true] {
            let (sw, se, ne, nw) = (bits & 1 != 0, bits & 2 != 0, bits & 4 != 0, bits & 8 != 0);
            let segs = cell_segments(sw, se, ne, nw, center);
            let ends = |s: Side| segs.iter().filter(|p| p.0 == s).count() + segs.iter().filter(|p| p.1 == s).count();
            assert_eq!(ends(Side::South), (sw != se) as usize);
            assert_eq!(ends(Side::East), (se != ne) as usize);
            assert_eq!(ends(Side::North), (nw != ne) as usize);
            assert_eq!(ends(Side::West), (sw != nw) as usize);
        }
    }
}

#[test]
fn bars_cycle_through_given_colors() {
    let given = [red(), blue()];
    assert_eq!(bar_colors(5, &given), vec![red(), blue(), red(), blue(), red()]);
    assert!(bar_colors(0, &given).is_empty());
}

#[test]
fn bars_default_palette() {
    assert_eq!(
        bar_colors(6, &[]),
        vec![blue(), teal(), purple(), red(), gold(), blue()]
    );
}
