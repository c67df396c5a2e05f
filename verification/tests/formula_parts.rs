use manim_rust::formula::{
    formula_name, node_matches_tex, part_by_tex, part_name, set_color_by_tex, table_cell_ids,
    tex_part_children, tex_part_key, tex_part_source,
};
use manim_rust::palette::opaque;
use manim_rust::typst_doc::fill_markup;
use manim_rust::palette::Rgba8;
use manim_rust::scene::{Mobject, NodeId, SceneGraph};

type Graph = SceneGraph<&'static str, ()>;

fn named(name: &str, path: bool) -> Mobject<&'static str, ()> {
    let mut m = Mobject::new(if path { Some("glyph") } else { None }, ());
    m.name = Some(name.to_string());
    m
}

/// A formula group `tex:{joined}` with one `tex-part:` child per part,
/// each holding one glyph.
fn formula(g: &mut Graph, parts: &[&str]) -> (NodeId, Vec<NodeId>) {
    let joined: String = parts.concat();
    let group = g.add(named(&format!("tex:{joined}"), false));
    let mut ids = Vec::new();
    for p in parts {
        let part = g.add_child(group, named(&format!("tex-part:{p}"), false));
        g.add_child(part, Mobject::new(Some("glyph"), ()));
        ids.push(part);
    }
    (group, ids)
}

const RED: Rgba8 = Rgba8 { r: 252, g: 98, b: 85, a: 255 };

#[test]
fn part_keys_and_sources() {
    assert_eq!(tex_part_key("tex-part:x^2"), Some("x^2".to_string()));
    assert_eq!(tex_part_key("tex:x^2"), None);
    assert_eq!(tex_part_key("tex-part:"), Some(String::new()));
    assert_eq!(tex_part_source("tex-part:a+b"), "a+b");
    assert_eq!(tex_part_source("plain"), "plain");
}

#[test]
fn set_color_by_tex_recolors_matching_children() {
    let mut g: Graph = SceneGraph::new();
    let (group, ids) = formula(&mut g, &["a^2", " + ", "b^2", " = ", "c^2"]);
    g.clear_dirty();
    let n = set_color_by_tex(&mut g, group, "^2", RED);
    assert_eq!(n, 3);
    for (i, id) in ids.iter().enumerate() {
        let glyph = g.children_of(*id)[0];
        let hit = i % 2 == 0;
        assert_eq!(g.get(glyph).stroke == Some(RED), hit, "part {i}");
        assert_eq!(g.is_dirty(glyph), hit);
    }
    assert!(g.is_dirty(group));
}

#[test]
fn set_color_by_tex_matches_a_one_part_formula() {
    let mut g: Graph = SceneGraph::new();
    let part = g.add(named("tex-part:E=mc^2", false));
    let glyph = g.add_child(part, Mobject::new(Some("glyph"), ()));
    assert_eq!(set_color_by_tex(&mut g, part, "mc", RED), 1);
    assert_eq!(g.get(glyph).stroke, Some(RED));
    // a group that is not itself a part is not recolored
    let other = g.add(named("tex:E=mc^2", false));
    let leaf = g.add_child(other, Mobject::new(Some("glyph"), ()));
    assert_eq!(set_color_by_tex(&mut g, other, "mc", RED), 0);
    assert_ne!(g.get(leaf).stroke, Some(RED));
}

#[test]
fn set_color_by_tex_without_match_changes_nothing() {
    let mut g: Graph = SceneGraph::new();
    let (group, ids) = formula(&mut g, &["x", "y"]);
    g.clear_dirty();
    assert_eq!(set_color_by_tex(&mut g, group, "z", RED), 0);
    assert!(!g.any_dirty());
    assert_ne!(g.get(g.children_of(ids[0])[0]).stroke, Some(RED));
}

#[test]
fn part_by_tex_finds_first_matching_child() {
    let mut g: Graph = SceneGraph::new();
    let (group, ids) = formula(&mut g, &["a", "b", "ab"]);
    assert_eq!(part_by_tex(&g, group, "b"), Some(ids[1]));
    assert_eq!(part_by_tex(&g, group, "ab"), Some(ids[2]));
    // a `tex:` group is not a one-part formula, whatever its name holds
    assert_eq!(part_by_tex(&g, group, "ba"), None);
    // a one-part formula is its own part
    let single = g.add(named("tex-part:xy", false));
    assert_eq!(part_by_tex(&g, single, "y"), Some(single));
    assert_eq!(part_by_tex(&g, group, "q"), None);
    assert!(node_matches_tex(&g, ids[0], "a"));
    assert!(!node_matches_tex(&g, ids[0], "b"));
    // the empty pattern matches any named node
    assert!(node_matches_tex(&g, ids[0], ""));
}

#[test]
fn table_cells_skip_the_line_group() {
    let mut g: Graph = SceneGraph::new();
    let table = g.add(named("table", false));
    let cells = g.add_child(table, named("cells", false));
    let c0 = g.add_child(cells, named("c0", true));
    let c1 = g.add_child(cells, named("c1", true));
    let _lines = g.add_child(table, named("table_lines", false));
    assert_eq!(table_cell_ids(&g, table), vec![c0, c1]);

    let plain = g.add(named("table", false));
    let p0 = g.add_child(plain, named("c", true));
    let p1 = g.add_child(plain, named("d", true));
    assert_eq!(table_cell_ids(&g, plain), vec![p0, p1]);
}

#[test]
fn tex_part_children_lists_named_parts() {
    let mut g: Graph = SceneGraph::new();
    let (group, ids) = formula(&mut g, &["x", "=", "1"]);
    let extra = g.add_child(group, named("decoration", true));
    let _ = extra;
    assert_eq!(
        tex_part_children(&g, group),
        vec![("x".to_string(), ids[0]), ("=".to_string(), ids[1]), ("1".to_string(), ids[2])]
    );
    assert_eq!(tex_part_children(&g, ids[1]), vec![("=".to_string(), ids[1])]);
}

#[test]
fn part_names_read_back() {
    let name = part_name("x^2");
    assert_eq!(name, "tex-part:x^2");
    assert_eq!(tex_part_key(&name), Some("x^2".to_string()));
    assert_eq!(tex_part_source(&name), "x^2");
    assert_eq!(part_name(""), "tex-part:");
}

#[test]
fn formula_group_names_join_parts() {
    let parts: Vec<String> = vec!["a^2".to_string(), " + ".to_string(), "b^2".to_string()];
    assert_eq!(formula_name(&parts), "tex:a^2 + b^2");
    assert_eq!(formula_name(&["e^{i pi}".to_string()]), "tex:e^{i pi}");
    assert_eq!(formula_name(&[]), "tex:");
}

#[test]
fn markup_gets_a_default_fill() {
    let c = opaque(88, 196, 221);
    assert_eq!(
        fill_markup("<b>hi</b>", c),
        "#set text(fill: rgb(88, 196, 221))\n<b>hi</b>"
    );
}

#[test]
fn only_named_parts_are_recolored_and_counted() {
    let mut g: Graph = SceneGraph::new();
    let group = g.add(named("tex:aalpha", false));
    let part = g.add_child(group, named("tex-part:a", true));
    let other = g.add_child(group, named("alpha", true));
    assert_eq!(set_color_by_tex(&mut g, group, "a", RED), 1);
    assert_eq!(g.get(part).stroke, Some(RED));
    assert_ne!(g.get(other).stroke, Some(RED));
}

#[test]
fn two_part_group_is_not_its_own_part() {
    let mut g: Graph = SceneGraph::new();
    let group = g.add(named("tex:ab", false));
    g.add_child(group, named("tex-part:a", false));
    g.add_child(group, named("tex-part:b", false));
    assert_eq!(part_by_tex(&g, group, "ab"), None);
}
