//! Named formula parts in a scene graph. A multi-part formula is a group
//! whose children are named `tex-part:{source}`; a one-part formula is the
//! part group itself. Parts are found by TeX substring (Manim semantics).
use vstd::prelude::*;

use crate::palette::Rgba8;
use crate::scene::{NodeId, SceneGraph, recolored};
use crate::text::{contains_of, contains_seq, has_prefix, starts_with_of, str_chars, string_from_range};

verus! {

/// The `tex-part:` name prefix.
pub open spec fn part_prefix() -> Seq<char> {
    seq!['t', 'e', 'x', '-', 'p', 'a', 'r', 't', ':']
}

/// The prefix as a buffer.
fn part_prefix_chars() -> (v: Vec<char>)
    ensures
        v@ == part_prefix(),
{
    let v = vec!['t', 'e', 'x', '-', 'p', 'a', 'r', 't', ':'];
    proof {
        assert(v@ =~= part_prefix());
    }
    v
}

/// The TeX source named by a `tex-part:` name.
pub open spec fn part_key(name: Seq<char>) -> Option<Seq<char>> {
    if has_prefix(name, part_prefix()) {
        Some(name.skip(part_prefix().len() as int))
    } else {
        None
    }
}

/// The TeX source a part name stands for: the name without its
/// `tex-part:` prefix, or the whole name when it has none.
pub open spec fn part_source(name: Seq<char>) -> Seq<char> {
    match part_key(name) {
        Some(k) => k,
        None => name,
    }
}

/// Chars of `part_source`, from the name's chars.
fn part_source_chars(name: &[char]) -> (r: Vec<char>)
    ensures
        r@ == part_source(name@),
{
    let p = part_prefix_chars();
    if starts_with_of(name, &p) {
        let mut out: Vec<char> = Vec::new();
        let mut i: usize = p.len();
        while i < name.len()
            invariant
                p.len() <= i <= name.len(),
                p@ == part_prefix(),
                out@ == name@.subrange(p.len() as int, i as int),
            decreases name.len() - i,
        {
            out.push(name[i]);
            proof {
                assert(name@.subrange(p.len() as int, i + 1) =~= name@.subrange(
                    p.len() as int,
                    i as int,
                ).push(name@[i as int]));
            }
            i = i + 1;
        }
        proof {
            assert(out@ =~= name@.skip(p.len() as int));
        }
        out
    } else {
        let mut out: Vec<char> = Vec::new();
        let mut i: usize = 0;
        while i < name.len()
            invariant
                i <= name.len(),
                out@ == name@.subrange(0, i as int),
            decreases name.len() - i,
        {
            out.push(name[i]);
            proof {
                assert(name@.subrange(0, i + 1) =~= name@.subrange(0, i as int).push(
                    name@[i as int],
                ));
            }
            i = i + 1;
        }
        proof {
            assert(out@ =~= name@);
        }
        out
    }
}

/// The source of a `tex-part:{source}` name, or `None` for other names.
pub fn tex_part_key(name: &str) -> (r: Option<String>)
    ensures
        match r {
            Some(k) => part_key(name@) == Some(k@),
            None => part_key(name@) is None,
        },
{
    let v = str_chars(name);
    let p = part_prefix_chars();
    if starts_with_of(&v, &p) {
        let k = string_from_range(&v, p.len(), v.len());
        proof {
            assert(k@ =~= name@.skip(part_prefix().len() as int));
        }
        Some(k)
    } else {
        None
    }
}

/// The TeX source a part name stands for (the whole name when it is not
/// a `tex-part:` name).
pub fn tex_part_source(name: &str) -> (r: String)
    ensures
        r@ == part_source(name@),
{
    let v = str_chars(name);
    let src = part_source_chars(&v);
    string_from_range(&src, 0, src.len())
}

/// The name given to the part compiled from `source`: `tex-part:{source}`.
pub fn part_name(source: &str) -> (r: String)
    ensures
        r@ == part_prefix() + source@,
{
    let mut v = part_prefix_chars();
    crate::text::extend_all(&mut v, &str_chars(source));
    crate::text::string_from(&v)
}

/// Reading back a part's name gives its source: the key of
/// `tex-part:{source}` is `source`, for every source.
pub proof fn law_part_name_roundtrip(source: Seq<char>)
    ensures
        part_key(part_prefix() + source) == Some(source),
        part_source(part_prefix() + source) == source,
{
    let name = part_prefix() + source;
    assert(name.subrange(0, part_prefix().len() as int) =~= part_prefix());
    assert(has_prefix(name, part_prefix()));
    assert(name.skip(part_prefix().len() as int) =~= source);
}

/// The `tex:` prefix of a formula group's name.
pub open spec fn formula_prefix() -> Seq<char> {
    seq!['t', 'e', 'x', ':']
}

/// The name of the group holding a formula compiled from `parts`:
/// `tex:` followed by the parts run together.
pub fn formula_name(parts: &[String]) -> (r: String)
    ensures
        r@ == formula_prefix() + crate::tex_parts::views(parts@).fold_left(
            Seq::<char>::empty(),
            |acc: Seq<char>, p: Seq<char>| acc + p,
        ),
{
    let ghost all = crate::tex_parts::views(parts@);
    let mut v = vec!['t', 'e', 'x', ':'];
    assert(v@ =~= formula_prefix());
    let mut i: usize = 0;
    while i < parts.len()
        invariant
            i <= parts@.len(),
            all == crate::tex_parts::views(parts@),
            v@ == formula_prefix() + all.take(i as int).fold_left(
                Seq::<char>::empty(),
                |acc: Seq<char>, p: Seq<char>| acc + p,
            ),
        decreases parts@.len() - i,
    {
        proof {
            assert(all.take(i + 1).drop_last() =~= all.take(i as int));
        }
        crate::text::extend_all(&mut v, &str_chars(parts[i].as_str()));
        proof {
            assert(v@ =~= formula_prefix() + all.take(i + 1).fold_left(
                Seq::<char>::empty(),
                |acc: Seq<char>, p: Seq<char>| acc + p,
            ));
        }
        i = i + 1;
    }
    proof {
        assert(all.take(parts@.len() as int) =~= all);
    }
    crate::text::string_from(&v)
}

/// Node `id` is named, and its part source contains `tex`.
pub open spec fn names_part<P, G>(g: &SceneGraph<P, G>, id: NodeId, tex: Seq<char>) -> bool {
    match g.spec_mobject(id).name {
        Some(n) => contains_seq(part_source(n@), tex),
        None => false,
    }
}

/// Node `id` is itself a part (`tex-part:` name) whose source contains
/// `tex`.
pub open spec fn is_matching_part<P, G>(g: &SceneGraph<P, G>, id: NodeId, tex: Seq<char>) -> bool {
    match g.spec_mobject(id).name {
        Some(n) => has_prefix(n@, part_prefix()) && contains_seq(part_source(n@), tex),
        None => false,
    }
}

/// Whether node `id`'s name, read as a part name, contains `tex`.
pub fn node_matches_tex<P, G>(scene: &SceneGraph<P, G>, id: NodeId, tex: &str) -> (r: bool)
    requires
        scene.wf_structure(),
        id < scene.spec_len(),
    ensures
        r == names_part(scene, id, tex@),
{
    match &scene.get(id).name {
        Some(n) => {
            let v = str_chars(n.as_str());
            let src = part_source_chars(&v);
            let t = str_chars(tex);
            contains_of(&src, &t)
        },
        None => false,
    }
}

/// Whether node `id` is a `tex-part:` node whose source contains `tex`.
fn node_is_matching_part<P, G>(scene: &SceneGraph<P, G>, id: NodeId, tex: &str) -> (r: bool)
    requires
        scene.wf_structure(),
        id < scene.spec_len(),
    ensures
        r == is_matching_part(scene, id, tex@),
{
    match &scene.get(id).name {
        Some(n) => {
            let v = str_chars(n.as_str());
            let p = part_prefix_chars();
            if !starts_with_of(&v, &p) {
                return false;
            }
            let src = part_source_chars(&v);
            let t = str_chars(tex);
            contains_of(&src, &t)
        },
        None => false,
    }
}

/// How many of the nodes `cs` are `tex-part:` nodes whose source contains
/// `tex`.
pub open spec fn matched_count<P, G>(g: &SceneGraph<P, G>, cs: Seq<NodeId>, tex: Seq<char>) -> nat
    decreases cs.len(),
{
    if cs.len() == 0 {
        0
    } else {
        matched_count(g, cs.drop_last(), tex) + if is_matching_part(g, cs.last(), tex) {
            1nat
        } else {
            0nat
        }
    }
}

/// `x` lies in the subtree of one of the nodes `cs` that are `tex-part:`
/// nodes whose source contains `tex`.
pub open spec fn covered<P, G>(g: &SceneGraph<P, G>, cs: Seq<NodeId>, tex: Seq<char>, x: NodeId) -> bool
    decreases cs.len(),
{
    cs.len() > 0 && (covered(g, cs.drop_last(), tex, x) || (is_matching_part(g, cs.last(), tex)
        && g.in_subtree(cs.last(), x)))
}

/// A one-part formula: no child of `group` is a matching part, and
/// `group` is itself a matching `tex-part:` node.
pub open spec fn whole_part<P, G>(g: &SceneGraph<P, G>, group: NodeId, tex: Seq<char>) -> bool {
    matched_count(g, g.spec_children(group), tex) == 0 && is_matching_part(g, group, tex)
}

/// `x` is recolored by `set_color_by_tex(group, tex, _)`.
pub open spec fn colored_by_tex<P, G>(g: &SceneGraph<P, G>, group: NodeId, tex: Seq<char>, x: NodeId) -> bool {
    covered(g, g.spec_children(group), tex, x) || (whole_part(g, group, tex) && g.in_subtree(
        group,
        x,
    ))
}

/// `x` is marked dirty by `set_color_by_tex(group, tex, _)`.
pub open spec fn dirtied_by_tex<P, G>(g: &SceneGraph<P, G>, group: NodeId, tex: Seq<char>, x: NodeId) -> bool {
    ||| covered(g, g.spec_children(group), tex, x)
    ||| (matched_count(g, g.spec_children(group), tex) > 0 && g.on_chain(group, x))
    ||| (whole_part(g, group, tex) && (g.in_subtree(group, x) || g.on_chain(group, x)))
}

/// Recolor every direct child of `group` named `tex-part:...` whose part
/// source contains `tex` (with its subtree). When none matches and `group` is itself a
/// `tex-part:` node whose source contains `tex` (a one-part formula),
/// recolor `group`. Returns how many parts were recolored.
pub fn set_color_by_tex<P, G>(scene: &mut SceneGraph<P, G>, group: NodeId, tex: &str, color: Rgba8) -> (n:
    usize)
    requires
        old(scene).wf(),
        group < old(scene).spec_len(),
    ensures
        final(scene).wf(),
        final(scene).same_structure(&*old(scene)),
        n == if whole_part(&*old(scene), group, tex@) {
            1
        } else {
            matched_count(&*old(scene), old(scene).spec_children(group), tex@)
        },
        forall|x: NodeId|
            x < final(scene).spec_len() ==> #[trigger] final(scene).spec_mobject(x) == if colored_by_tex(
                &*old(scene),
                group,
                tex@,
                x,
            ) {
                recolored(old(scene).spec_mobject(x), color)
            } else {
                old(scene).spec_mobject(x)
            },
        forall|x: NodeId|
            x < final(scene).spec_len() ==> #[trigger] final(scene).spec_dirty(x) == (old(
                scene,
            ).spec_dirty(x) || dirtied_by_tex(&*old(scene), group, tex@, x)),
{
    let ghost g0 = *scene;
    let ghost cs = g0.spec_children(group);
    let len = scene.children_of(group).len();
    let mut n: usize = 0;
    let mut k: usize = 0;
    while k < len
        invariant
            scene.wf(),
            scene.same_structure(&g0),
            g0.wf(),
            group < g0.spec_len(),
            cs == g0.spec_children(group),
            len == cs.len(),
            k <= len,
            n <= k,
            n == matched_count(&g0, cs.subrange(0, k as int), tex@),
            forall|x: NodeId|
                x < scene.spec_len() ==> #[trigger] scene.spec_mobject(x) == if covered(
                    &g0,
                    cs.subrange(0, k as int),
                    tex@,
                    x,
                ) {
                    recolored(g0.spec_mobject(x), color)
                } else {
                    g0.spec_mobject(x)
                },
            forall|x: NodeId|
                x < scene.spec_len() ==> #[trigger] scene.spec_dirty(x) == (g0.spec_dirty(x)
                    || covered(&g0, cs.subrange(0, k as int), tex@, x) || (n > 0 && g0.on_chain(
                    group,
                    x,
                ))),
        decreases len - k,
    {
        let c = scene.children_of(group)[k];
        proof {
            g0.lemma_child(group, k as int);
            let p = cs.subrange(0, k + 1);
            assert(p.drop_last() =~= cs.subrange(0, k as int));
            assert(p.last() == c);
        }
        let hit = node_is_matching_part(scene, c, tex);
        proof {
            assert(scene.spec_mobject(c).name == g0.spec_mobject(c).name);
            assert(hit == is_matching_part(&g0, c, tex@));
        }
        if hit {
            let ghost mid = *scene;
            scene.set_color(c, color);
            proof {
                assert forall|x: NodeId| x < scene.spec_len() implies #[trigger] scene.spec_mobject(x)
                    == if covered(&g0, cs.subrange(0, k + 1), tex@, x) {
                    recolored(g0.spec_mobject(x), color)
                } else {
                    g0.spec_mobject(x)
                } by {
                    mid.lemma_subtree_same(&g0, c, x);
                    assert(mid.spec_mobject(x) == if covered(&g0, cs.subrange(0, k as int), tex@, x) {
                        recolored(g0.spec_mobject(x), color)
                    } else {
                        g0.spec_mobject(x)
                    });
                }
                assert forall|x: NodeId| x < scene.spec_len() implies #[trigger] scene.spec_dirty(x)
                    == (g0.spec_dirty(x) || covered(&g0, cs.subrange(0, k + 1), tex@, x) || (n + 1
                    > 0 && g0.on_chain(group, x))) by {
                    mid.lemma_subtree_same(&g0, c, x);
                    mid.lemma_chain_same_structure(&g0, c, x);
                    g0.lemma_chain_unfold(c, x);
                    g0.lemma_subtree_unfold(c, x);
                    assert(mid.spec_dirty(x) == (g0.spec_dirty(x) || covered(
                        &g0,
                        cs.subrange(0, k as int),
                        tex@,
                        x,
                    ) || (n > 0 && g0.on_chain(group, x))));
                }
            }
            n = n + 1;
        } else {
            proof {
                assert forall|x: NodeId| x < scene.spec_len() implies covered(
                    &g0,
                    cs.subrange(0, k + 1),
                    tex@,
                    x,
                ) == covered(&g0, cs.subrange(0, k as int), tex@, x) by {}
            }
        }
        k = k + 1;
    }
    proof {
        assert(cs.subrange(0, len as int) =~= cs);
    }
    if n == 0 {
        proof {
            assert(scene.spec_mobject(group).name == g0.spec_mobject(group).name);
        }
        if node_is_matching_part(scene, group, tex) {
            let ghost mid = *scene;
            scene.set_color(group, color);
            proof {
                assert forall|x: NodeId| x < scene.spec_len() implies #[trigger] scene.spec_mobject(x)
                    == if colored_by_tex(&g0, group, tex@, x) {
                    recolored(g0.spec_mobject(x), color)
                } else {
                    g0.spec_mobject(x)
                } by {
                    mid.lemma_subtree_same(&g0, group, x);
                    assert(mid.spec_mobject(x) == if covered(&g0, cs, tex@, x) {
                        recolored(g0.spec_mobject(x), color)
                    } else {
                        g0.spec_mobject(x)
                    });
                }
                assert forall|x: NodeId| x < scene.spec_len() implies #[trigger] scene.spec_dirty(x)
                    == (g0.spec_dirty(x) || dirtied_by_tex(&g0, group, tex@, x)) by {
                    mid.lemma_subtree_same(&g0, group, x);
                    mid.lemma_chain_same_structure(&g0, group, x);
                    assert(mid.spec_dirty(x) == (g0.spec_dirty(x) || covered(&g0, cs, tex@, x)));
                }
            }
            return 1;
        }
    }
    n
}

/// `cs[j]` is the first of `cs` that names a part containing `tex`.
pub open spec fn is_first_part<P, G>(g: &SceneGraph<P, G>, cs: Seq<NodeId>, tex: Seq<char>, j: int) -> bool {
    &&& 0 <= j < cs.len()
    &&& names_part(g, cs[j], tex)
    &&& forall|i: int| 0 <= i < j ==> !names_part(g, #[trigger] cs[i], tex)
}

/// None of `cs` names a part containing `tex`.
pub open spec fn no_part<P, G>(g: &SceneGraph<P, G>, cs: Seq<NodeId>, tex: Seq<char>) -> bool {
    forall|i: int| 0 <= i < cs.len() ==> !names_part(g, #[trigger] cs[i], tex)
}

/// The first direct child of `group` whose part source contains `tex`;
/// failing that, `group` itself when it is a `tex-part:` node whose source
/// contains `tex` (a one-part formula).
pub fn part_by_tex<P, G>(scene: &SceneGraph<P, G>, group: NodeId, tex: &str) -> (r: Option<NodeId>)
    requires
        scene.wf_structure(),
        group < scene.spec_len(),
    ensures
        match r {
            Some(c) => (exists|j: int|
                is_first_part(scene, scene.spec_children(group), tex@, j)
                    && scene.spec_children(group)[j] == c) || (c == group && no_part(
                scene,
                scene.spec_children(group),
                tex@,
            ) && is_matching_part(scene, group, tex@)),
            None => no_part(scene, scene.spec_children(group), tex@) && !is_matching_part(
                scene,
                group,
                tex@,
            ),
        },
{
    let kids = scene.children_of(group);
    let mut k: usize = 0;
    while k < kids.len()
        invariant
            scene.wf_structure(),
            group < scene.spec_len(),
            kids@ == scene.spec_children(group),
            k <= kids.len(),
            forall|i: int| 0 <= i < k ==> !names_part(scene, #[trigger] kids@[i], tex@),
        decreases kids.len() - k,
    {
        let c = kids[k];
        proof {
            scene.lemma_child(group, k as int);
        }
        if node_matches_tex(scene, c, tex) {
            proof {
                assert(is_first_part(scene, scene.spec_children(group), tex@, k as int));
            }
            return Some(c);
        }
        k = k + 1;
    }
    if node_is_matching_part(scene, group, tex) {
        Some(group)
    } else {
        None
    }
}

/// The name a table gives its grid-lines child.
pub open spec fn table_lines_name() -> Seq<char> {
    seq!['t', 'a', 'b', 'l', 'e', '_', 'l', 'i', 'n', 'e', 's']
}

/// The cell nodes of a table: its children, or, when the last child is
/// the `table_lines` group (and there are at least two), the children of
/// the first child.
pub open spec fn cell_ids<P, G>(g: &SceneGraph<P, G>, table: NodeId) -> Seq<NodeId> {
    let kids = g.spec_children(table);
    if kids.len() >= 2 && (g.spec_mobject(kids.last()).name matches Some(n) && n@
        == table_lines_name()) {
        g.spec_children(kids[0])
    } else {
        kids
    }
}

/// Cell nodes of a table built by the table constructors.
pub fn table_cell_ids<P, G>(scene: &SceneGraph<P, G>, table: NodeId) -> (r: Vec<NodeId>)
    requires
        scene.wf_structure(),
        table < scene.spec_len(),
    ensures
        r@ == cell_ids(scene, table),
{
    let kids = scene.children_of(table);
    if kids.len() >= 2 {
        let last = kids[kids.len() - 1];
        proof {
            scene.lemma_child(table, kids.len() - 1);
            scene.lemma_child(table, 0);
        }
        let is_lines = match &scene.get(last).name {
            Some(n) => {
                let v = str_chars(n.as_str());
                let lines = vec!['t', 'a', 'b', 'l', 'e', '_', 'l', 'i', 'n', 'e', 's'];
                proof {
                    assert(lines@ =~= table_lines_name());
                }
                crate::text::chars_eq(&v, &lines)
            },
            None => false,
        };
        if is_lines {
            return copy_ids(scene.children_of(kids[0]));
        }
    }
    copy_ids(kids)
}

/// An owned copy of a list of node ids.
fn copy_ids(s: &[NodeId]) -> (r: Vec<NodeId>)
    ensures
        r@ == s@,
{
    let mut out: Vec<NodeId> = Vec::new();
    let mut i: usize = 0;
    while i < s.len()
        invariant
            i <= s.len(),
            out@ == s@.subrange(0, i as int),
        decreases s.len() - i,
    {
        out.push(s[i]);
        proof {
            assert(s@.subrange(0, i + 1) =~= s@.subrange(0, i as int).push(s@[i as int]));
        }
        i = i + 1;
    }
    proof {
        assert(s@.subrange(0, s@.len() as int) =~= s@);
    }
    out
}

/// The named parts of a formula node, as `(source, node)` pairs: the node
/// itself when it is a `tex-part:` node, else its `tex-part:` children in
/// order.
pub open spec fn part_children<P, G>(g: &SceneGraph<P, G>, id: NodeId) -> Seq<(Seq<char>, NodeId)> {
    match own_part(g, id) {
        Some(k) => seq![(k, id)],
        None => parts_of(g, g.spec_children(id)),
    }
}

/// The part key of node `id`'s name, if it is a `tex-part:` node.
pub open spec fn own_part<P, G>(g: &SceneGraph<P, G>, id: NodeId) -> Option<Seq<char>> {
    match g.spec_mobject(id).name {
        Some(n) => part_key(n@),
        None => None,
    }
}

/// The `(key, node)` pairs of the `tex-part:` nodes among `cs`, in order.
pub open spec fn parts_of<P, G>(g: &SceneGraph<P, G>, cs: Seq<NodeId>) -> Seq<(Seq<char>, NodeId)>
    decreases cs.len(),
{
    if cs.len() == 0 {
        Seq::empty()
    } else {
        parts_of(g, cs.drop_last()) + match own_part(g, cs.last()) {
            Some(k) => seq![(k, cs.last())],
            None => Seq::empty(),
        }
    }
}

/// `(key, node)` pairs with the key as a plain char sequence.
pub open spec fn keyed_views(v: Seq<(String, NodeId)>) -> Seq<(Seq<char>, NodeId)> {
    v.map_values(|p: (String, NodeId)| (p.0@, p.1))
}

/// The part key of node `id`, if it is a `tex-part:` node.
fn own_part_of<P, G>(scene: &SceneGraph<P, G>, id: NodeId) -> (r: Option<String>)
    requires
        scene.wf_structure(),
        id < scene.spec_len(),
    ensures
        match r {
            Some(k) => own_part(scene, id) == Some(k@),
            None => own_part(scene, id) is None,
        },
{
    match &scene.get(id).name {
        Some(n) => tex_part_key(n.as_str()),
        None => None,
    }
}

/// The named parts of a formula (see `part_children`).
pub fn tex_part_children<P, G>(scene: &SceneGraph<P, G>, id: NodeId) -> (r: Vec<(String, NodeId)>)
    requires
        scene.wf_structure(),
        id < scene.spec_len(),
    ensures
        keyed_views(r@) == part_children(scene, id),
{
    let mut out: Vec<(String, NodeId)> = Vec::new();
    match own_part_of(scene, id) {
        Some(k) => {
            out.push((k, id));
            proof {
                assert(keyed_views(out@) =~= part_children(scene, id));
            }
            return out;
        },
        None => {},
    }
    let kids = scene.children_of(id);
    let mut j: usize = 0;
    while j < kids.len()
        invariant
            scene.wf_structure(),
            id < scene.spec_len(),
            kids@ == scene.spec_children(id),
            j <= kids.len(),
            keyed_views(out@) == parts_of(scene, kids@.subrange(0, j as int)),
        decreases kids.len() - j,
    {
        let c = kids[j];
        proof {
            scene.lemma_child(id, j as int);
            let p = kids@.subrange(0, j + 1);
            assert(p.drop_last() =~= kids@.subrange(0, j as int));
            assert(p.last() == c);
        }
        let ghost before = out@;
        match own_part_of(scene, c) {
            Some(k) => {
                out.push((k, c));
                proof {
                    assert(keyed_views(out@) =~= keyed_views(before).push((k@, c)));
                }
            },
            None => {
                proof {
                    assert(keyed_views(out@) =~= keyed_views(before));
                }
            },
        }
        proof {
            assert(parts_of(scene, kids@.subrange(0, j + 1)) =~= parts_of(
                scene,
                kids@.subrange(0, j as int),
            ) + match own_part(scene, c) {
                Some(k) => seq![(k, c)],
                None => Seq::empty(),
            });
        }
        j = j + 1;
    }
    proof {
        assert(kids@.subrange(0, kids@.len() as int) =~= kids@);
    }
    out
}

} // verus!
