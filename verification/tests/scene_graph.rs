use manim_rust::frames::{frame_action, FrameAction};
use manim_rust::palette::Rgba8;
use manim_rust::scene::{Mobject, NodeId, SceneGraph};

/// Geometry stand-in: just an opacity.
type Graph = SceneGraph<&'static str, f32>;

fn shape(path: &'static str) -> Mobject<&'static str, f32> {
    Mobject::new(Some(path), 1.0)
}

fn group() -> Mobject<&'static str, f32> {
    Mobject::new(None, 1.0)
}

#[test]
fn dirty_flags_track_mutation() {
    let mut g: Graph = SceneGraph::new();
    let a = g.add(shape("circle"));
    let b = g.add(shape("square"));
    assert!(g.any_dirty());
    g.clear_dirty();
    assert!(!g.any_dirty());

    g.get_mut(a).geometry = 0.5;
    assert!(g.any_dirty());
    g.clear_dirty();

    // Read-only access must not dirty the graph.
    let _ = g.get(b).path.is_some();
    assert!(!g.any_dirty());
}

#[test]
fn higher_z_index_paints_later() {
    let mut g: Graph = SceneGraph::new();
    let a = g.add(shape("circle"));
    let b = g.add(shape("square"));
    g.set_z_index(a, 5);
    let order: Vec<NodeId> = g.paint_order();
    assert_eq!(order, vec![b, a]);
}

#[test]
fn paint_order_is_preorder_then_stable_by_z() {
    let mut g: Graph = SceneGraph::new();
    let r0 = g.add(group());
    let c0 = g.add_child(r0, shape("a"));
    let c1 = g.add_child(r0, shape("b"));
    let gc = g.add_child(c0, shape("c"));
    let r1 = g.add(shape("d"));
    assert_eq!(g.paint_order(), vec![r0, c0, gc, c1, r1]);
    g.set_z_index(c0, 2);
    g.set_z_index(r1, -1);
    assert_eq!(g.paint_order(), vec![r1, r0, gc, c1, c0]);
}

#[test]
fn new_nodes_start_dirty_and_mark_ancestors() {
    let mut g: Graph = SceneGraph::new();
    let r = g.add(group());
    let c = g.add_child(r, group());
    g.clear_dirty();
    let leaf = g.add_child(c, shape("x"));
    assert!(g.is_dirty(leaf));
    assert!(g.is_dirty(c));
    assert!(g.is_dirty(r));
    assert_eq!(g.parent(leaf), Some(c));
    assert_eq!(g.children_of(c), &[leaf]);
    assert_eq!(g.roots(), &[r]);
    assert_eq!(g.len(), 3);
    assert!(!g.is_empty());
}

#[test]
fn mark_dirty_reaches_the_root_only_along_the_chain() {
    let mut g: Graph = SceneGraph::new();
    let r = g.add(group());
    let a = g.add_child(r, group());
    let b = g.add_child(r, group());
    let a1 = g.add_child(a, shape("p"));
    g.clear_dirty();
    g.mark_dirty(a1);
    assert!(g.is_dirty(a1) && g.is_dirty(a) && g.is_dirty(r));
    assert!(!g.is_dirty(b));
}

#[test]
fn set_color_recolors_the_family_and_keeps_absent_paints() {
    let mut g: Graph = SceneGraph::new();
    let r = g.add(group());
    let mut filled = shape("f");
    filled.fill = Some(Rgba8 { r: 1, g: 2, b: 3, a: 255 });
    filled.stroke = None;
    let a = g.add_child(r, filled);
    let b = g.add_child(r, shape("s"));
    let other = g.add(shape("o"));
    g.clear_dirty();
    let gold = Rgba8 { r: 240, g: 172, b: 95, a: 255 };
    g.set_color(r, gold);
    assert_eq!(g.get(a).fill, Some(gold));
    assert_eq!(g.get(a).stroke, None);
    assert_eq!(g.get(b).fill, None);
    assert_eq!(g.get(b).stroke, Some(gold));
    assert_eq!(g.get(r).stroke, Some(gold));
    assert_ne!(g.get(other).stroke, Some(gold));
    assert!(g.is_dirty(a) && g.is_dirty(b) && g.is_dirty(r));
    assert!(!g.is_dirty(other));
}

#[test]
fn remove_tombstones_the_subtree() {
    let mut g: Graph = SceneGraph::new();
    let r = g.add(group());
    let a = g.add_child(r, group());
    let a1 = g.add_child(a, shape("x"));
    let b = g.add_child(r, shape("y"));
    let s = g.add(shape("z"));
    g.clear_dirty();
    g.remove(a);
    assert_eq!(g.len(), 5);
    assert_eq!(g.children_of(r), &[b]);
    assert!(g.children_of(a).is_empty());
    assert!(!g.get(a).visible && !g.get(a1).visible);
    assert!(g.get(a1).path.is_none());
    assert!(g.get(b).visible && g.get(b).path.is_some());
    // ids stay stable and parent links are kept
    assert_eq!(g.parent(a1), Some(a));
    assert!(g.is_dirty(a) && g.is_dirty(a1) && g.is_dirty(r));
    assert!(!g.is_dirty(b) && !g.is_dirty(s));
    assert_eq!(g.roots(), &[r, s]);
}

#[test]
fn removing_a_root_drops_it_from_the_roots() {
    let mut g: Graph = SceneGraph::new();
    let a = g.add(shape("a"));
    let b = g.add(shape("b"));
    g.remove(a);
    assert_eq!(g.roots(), &[b]);
    assert!(!g.get(a).visible);
}

#[test]
fn reparent_moves_a_subtree() {
    let mut g: Graph = SceneGraph::new();
    let r0 = g.add(group());
    let r1 = g.add(group());
    let a = g.add_child(r0, group());
    let a1 = g.add_child(a, shape("x"));
    g.clear_dirty();
    g.reparent(a, Some(r1));
    assert_eq!(g.parent(a), Some(r1));
    assert!(g.children_of(r0).is_empty());
    assert_eq!(g.children_of(r1), &[a]);
    assert_eq!(g.parent(a1), Some(a));
    assert!(g.is_dirty(r0) && g.is_dirty(r1));
    assert!(!g.is_dirty(a));
    // and back to a root
    g.reparent(a, None);
    assert_eq!(g.parent(a), None);
    assert_eq!(g.roots(), &[r0, r1, a]);
    assert!(g.is_dirty(a));
    // a deeper move still keeps chains finite
    g.reparent(r0, Some(a1));
    g.mark_dirty(r0);
    assert_eq!(g.parent(r0), Some(a1));
    assert_eq!(g.roots(), &[r1, a]);
}

#[test]
fn group_nodes_wraps_in_order() {
    let mut g: Graph = SceneGraph::new();
    let a = g.add(shape("a"));
    let b = g.add(shape("b"));
    let c = g.add_child(b, shape("c"));
    g.clear_dirty();
    let grp = g.group_nodes(&[a, c, a], 1.0);
    assert_eq!(grp, 3);
    assert_eq!(g.parent(a), Some(grp));
    assert_eq!(g.parent(c), Some(grp));
    assert_eq!(g.children_of(grp), &[c, a]);
    assert!(g.children_of(b).is_empty());
    assert_eq!(g.roots(), &[b, grp]);
    assert!(g.get(grp).path.is_none());
    assert!(g.is_dirty(grp) && g.is_dirty(b));
    assert!(!g.is_dirty(a));
}

#[test]
fn path_leaves_skip_empty_paths() {
    let mut g: Graph = SceneGraph::new();
    let r = g.add(group());
    let a = g.add_child(r, shape("a"));
    let e = g.add_child(r, group());
    let b = g.add_child(e, shape("b"));
    let _hollow = g.add_child(e, group());
    assert_eq!(g.path_leaves(r), vec![a, b]);
    assert_eq!(g.path_leaves(a), vec![a]);
    assert_eq!(g.subtree_nodes(r), vec![r, a, e, b, 4]);
    let lone = g.add(group());
    assert!(g.path_leaves(lone).is_empty());
}

#[test]
fn mobject_builders_set_one_field() {
    let m: Mobject<&str, ()> = Mobject::group(()).named("box".to_string()).with_z_index(3);
    assert!(m.path.is_none());
    assert_eq!(m.name.as_deref(), Some("box"));
    assert_eq!(m.z_index, 3);
    assert!(m.visible);
    assert!(m.fill.is_none());
}

#[test]
fn parent_chain_includes_self_and_ancestors_only() {
    let mut g: Graph = SceneGraph::new();
    let r = g.add(group());
    let a = g.add_child(r, group());
    let b = g.add_child(a, shape("b"));
    let other = g.add(shape("o"));
    assert!(g.on_parent_chain(b, b));
    assert!(g.on_parent_chain(b, a));
    assert!(g.on_parent_chain(b, r));
    assert!(!g.on_parent_chain(b, other));
    assert!(!g.on_parent_chain(a, b));
    assert!(!g.on_parent_chain(r, a));
}

#[test]
fn clean_graph_reuses_frame_and_mutation_redraws() {
    let mut g: Graph = SceneGraph::new();
    let r = g.add(group());
    let a = g.add_child(r, shape("a"));
    g.clear_dirty();
    assert_eq!(frame_action(g.any_dirty(), false, true), FrameAction::Reuse);
    assert_eq!(frame_action(g.any_dirty(), true, true), FrameAction::Render);
    g.get_mut(a).visible = false;
    assert_eq!(frame_action(g.any_dirty(), false, true), FrameAction::Render);
}
