use manim_rust::matching::pair_by_key;
use manim_rust::network::{drawn_edges, index_edges, layout_kind, vertex_name, GraphLayout};
use manim_rust::typst_doc::{formula_syntax, Syntax};

fn names(items: &[&str]) -> Vec<String> {
    items.iter().map(|s| s.to_string()).collect()
}

fn edge(a: &str, b: &str) -> (String, String) {
    (a.to_string(), b.to_string())
}

#[test]
fn layout_names() {
    assert_eq!(layout_kind("spring"), GraphLayout::Spring);
    assert_eq!(layout_kind("tree"), GraphLayout::Tree);
    assert_eq!(layout_kind("circular"), GraphLayout::Circular);
    assert_eq!(layout_kind("Tree"), GraphLayout::Circular);
    assert_eq!(layout_kind(""), GraphLayout::Circular);
}

#[test]
fn edges_by_name_become_indices() {
    let v = names(&["a", "b", "c"]);
    let e = vec![edge("a", "b"), edge("c", "a")];
    assert_eq!(index_edges(&v, &e), Ok(vec![(0, 1), (2, 0)]));
    assert_eq!(index_edges(&v, &[]), Ok(vec![]));
}

#[test]
fn repeated_vertex_name_means_the_last() {
    let v = names(&["x", "y", "x"]);
    assert_eq!(index_edges(&v, &[edge("x", "y")]), Ok(vec![(2, 1)]));
}

#[test]
fn first_unknown_vertex_is_reported() {
    let v = names(&["a", "b"]);
    assert_eq!(index_edges(&v, &[edge("a", "b"), edge("a", "q"), edge("z", "a")]), Err("q".to_string()));
    assert_eq!(index_edges(&v, &[edge("p", "q")]), Err("p".to_string()));
}

#[test]
fn out_of_range_edges_are_not_drawn() {
    assert_eq!(drawn_edges(3, &[(0, 1), (1, 3), (2, 0), (5, 5)]), vec![(0, 1), (2, 0)]);
    assert!(drawn_edges(0, &[(0, 0)]).is_empty());
}

#[test]
fn vertex_node_names() {
    assert_eq!(vertex_name(0), "vertex:0");
    assert_eq!(vertex_name(12), "vertex:12");
}

#[test]
fn formula_syntax_words() {
    assert!(formula_syntax("latex") == Some(Syntax::Latex));
    assert!(formula_syntax("typst") == Some(Syntax::Typst));
    assert!(formula_syntax("LaTeX").is_none());
    assert!(formula_syntax("text").is_none());
}

#[test]
fn pairing_keeps_every_node_once() {
    let src = vec![
        ("a".to_string(), 1, 0),
        ("b".to_string(), 2, 1),
        ("a".to_string(), 3, 2),
        ("c".to_string(), 4, 3),
    ];
    let dst = vec![("a".to_string(), 10, 5), ("b".to_string(), 11, 0), ("d".to_string(), 12, 1)];
    let (pairs, extra_src, extra_dst) = pair_by_key(&src, &dst);
    let mut from_src: Vec<usize> = pairs.iter().map(|p| p.0).chain(extra_src.iter().copied()).collect();
    from_src.sort();
    assert_eq!(from_src, vec![1, 2, 3, 4]);
    let mut from_dst: Vec<usize> = pairs.iter().map(|p| p.1).chain(extra_dst.iter().copied()).collect();
    from_dst.sort();
    assert_eq!(from_dst, vec![10, 11, 12]);
    assert_eq!(pairs, vec![(1, 10), (2, 11)]);
}
