use manim_rust::layering::{layer_of, tree_layers};
use manim_rust::matching::pair_by_key;

#[test]
fn path_graph_layers_by_distance() {
    assert_eq!(tree_layers(3, &[(0, 1), (1, 2)]), vec![vec![0], vec![1], vec![2]]);
    assert_eq!(layer_of(3, &[(0, 1), (1, 2)]), vec![0, 1, 2]);
}

#[test]
fn star_graph_has_two_layers() {
    assert_eq!(tree_layers(4, &[(0, 1), (0, 2), (3, 0)]), vec![vec![0], vec![1, 2, 3]]);
}

#[test]
fn distance_not_edge_order_decides_the_layer() {
    // 0 - 2 - 1: vertex 1 is two edges from the root
    assert_eq!(layer_of(3, &[(2, 0), (1, 2)]), vec![0, 2, 1]);
    assert_eq!(tree_layers(3, &[(2, 0), (1, 2)]), vec![vec![0], vec![2], vec![1]]);
}

#[test]
fn components_stack_below_each_other() {
    // {0, 1} then {2}: the second component starts below the first
    assert_eq!(layer_of(3, &[(0, 1)]), vec![0, 1, 2]);
    // {0, 2} and {1, 3}: seeds 0 and 1
    assert_eq!(layer_of(4, &[(0, 2), (1, 3)]), vec![0, 2, 1, 3]);
}

#[test]
fn invalid_edges_are_ignored() {
    assert_eq!(layer_of(2, &[(0, 0), (0, 5), (7, 1)]), vec![0, 1]);
}

#[test]
fn no_vertices_no_layers() {
    assert!(tree_layers(0, &[]).is_empty());
    assert_eq!(tree_layers(1, &[]), vec![vec![0]]);
}

fn c(key: &str, id: usize, x: u64) -> (String, usize, u64) {
    (key.to_string(), id, x)
}

#[test]
fn pairs_follow_keys_and_left_to_right_order() {
    let src = vec![c("x", 1, 5), c("=", 2, 6), c("x", 3, 1)];
    let dst = vec![c("x", 10, 2), c("y", 11, 3), c("x", 12, 0), c("x", 13, 9)];
    let (pairs, extra_src, extra_dst) = pair_by_key(&src, &dst);
    // group "x": sources by x: 3 (1), 1 (5); targets: 12 (0), 10 (2), 13 (9)
    assert_eq!(pairs, vec![(3, 12), (1, 10)]);
    // "=" has no target; "x" has a third target; "y" has no source
    assert_eq!(extra_src, vec![2]);
    assert_eq!(extra_dst, vec![13, 11]);
}

#[test]
fn equal_ranks_keep_their_order() {
    let src = vec![c("a", 1, 0), c("a", 2, 0)];
    let dst = vec![c("a", 5, 0), c("a", 6, 0)];
    let (pairs, extra_src, extra_dst) = pair_by_key(&src, &dst);
    assert_eq!(pairs, vec![(1, 5), (2, 6)]);
    assert!(extra_src.is_empty() && extra_dst.is_empty());
}
