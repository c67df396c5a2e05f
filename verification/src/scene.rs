//! Retained, dirty-tracked scene graph (an arena of nodes).
//!
//! The renderer's frame-reuse fast path depends on one rule: all mutation
//! goes through `get_mut` / `mark_dirty` (or the mutators built on them),
//! and a dirty node's ancestors are dirty too. Reading is free.
//!
//! Each node carries a [`Mobject`]: the plain attributes the graph logic
//! reads (name, paints, visibility, z-order, whether the path is empty)
//! beside the path and real-valued data, which it only carries.
use vstd::prelude::*;

use crate::palette::Rgba8;
use crate::frames::{frame_action_for, FrameAction};

verus! {

pub type NodeId = usize;

/// One scene object: a path with its paint, visibility and draw order.
/// `P` is the path type and `G` holds the real-valued data (transform,
/// stroke width, opacities, raster image); the graph logic never reads
/// either.
#[derive(Clone)]
pub struct Mobject<P, G> {
    pub name: Option<String>,
    /// The outline; `None` for an empty path (a pure group node).
    pub path: Option<P>,
    /// Fill paint; `None` paints no fill.
    pub fill: Option<Rgba8>,
    /// Stroke paint; `None` paints no stroke.
    pub stroke: Option<Rgba8>,
    pub visible: bool,
    /// Higher draws later (on top). Manim `z_index`.
    pub z_index: i32,
    /// Transform, stroke width, opacities and image.
    pub geometry: G,
}

impl<P, G> Mobject<P, G> {
    /// A visible, unnamed mobject with Manim's default paint (white stroke,
    /// no fill) at z-index 0.
    pub fn new(path: Option<P>, geometry: G) -> (m: Self)
        ensures
            m.name is None,
            m.path == path,
            m.fill is None,
            m.stroke == Some(crate::palette::rgb(255, 255, 255)),
            m.visible,
            m.z_index == 0,
            m.geometry == geometry,
    {
        Mobject {
            name: None,
            path,
            fill: None,
            stroke: Some(crate::palette::white()),
            visible: true,
            z_index: 0,
            geometry,
        }
    }

    /// An empty-path node, used purely as a parent of others.
    pub fn group(geometry: G) -> (m: Self)
        ensures
            m.name is None,
            m.path is None,
            m.fill is None,
            m.stroke == Some(crate::palette::rgb(255, 255, 255)),
            m.visible,
            m.z_index == 0,
            m.geometry == geometry,
    {
        Self::new(None, geometry)
    }

    /// The same mobject under `name`.
    pub fn named(self, name: String) -> (m: Self)
        ensures
            m.name == Some(name),
            m.path == self.path,
            m.fill == self.fill,
            m.stroke == self.stroke,
            m.visible == self.visible,
            m.z_index == self.z_index,
            m.geometry == self.geometry,
    {
        let mut m = self;
        m.name = Some(name);
        m
    }

    /// The same mobject drawn at `z` (higher draws later).
    pub fn with_z_index(self, z: i32) -> (m: Self)
        ensures
            m.name == self.name,
            m.path == self.path,
            m.fill == self.fill,
            m.stroke == self.stroke,
            m.visible == self.visible,
            m.z_index == z,
            m.geometry == self.geometry,
    {
        let mut m = self;
        m.z_index = z;
        m
    }
}

/// `m` with its present paints (fill and stroke) set to `color`; an absent
/// paint stays absent.
pub open spec fn recolored<P, G>(m: Mobject<P, G>, color: Rgba8) -> Mobject<P, G> {
    Mobject {
        fill: if m.fill is Some {
            Some(color)
        } else {
            None
        },
        stroke: if m.stroke is Some {
            Some(color)
        } else {
            None
        },
        ..m
    }
}

/// A removed node: hidden, with an empty path.
pub open spec fn tombstoned<P, G>(m: Mobject<P, G>) -> Mobject<P, G> {
    Mobject { visible: false, path: None, ..m }
}

/// `s` without the entries that `drop` selects, in order.
pub open spec fn keep(s: Seq<NodeId>, drop: spec_fn(NodeId) -> bool) -> Seq<NodeId>
    decreases s.len(),
{
    if s.len() == 0 {
        Seq::empty()
    } else {
        keep(s.drop_last(), drop) + if drop(s.last()) {
            Seq::empty()
        } else {
            seq![s.last()]
        }
    }
}

/// Every entry of `keep(s, drop)` is an entry of `s` that `drop` does not
/// select, and every such entry is kept.
pub proof fn lemma_keep(s: Seq<NodeId>, drop: spec_fn(NodeId) -> bool)
    ensures
        forall|j: int|
            0 <= j < keep(s, drop).len() ==> s.contains(#[trigger] keep(s, drop)[j]) && !drop(
                keep(s, drop)[j],
            ),
        forall|x: NodeId| #[trigger] keep(s, drop).contains(x) == (s.contains(x) && !drop(x)),
    decreases s.len(),
{
    if s.len() > 0 {
        let t = s.drop_last();
        lemma_keep(t, drop);
        let k = keep(s, drop);
        let kt = keep(t, drop);
        assert forall|j: int| 0 <= j < k.len() implies s.contains(#[trigger] k[j]) && !drop(k[j]) by {
            if j < kt.len() {
                assert(k[j] == kt[j]);
                let i = choose|i: int| 0 <= i < t.len() && t[i] == kt[j];
                assert(s[i] == k[j]);
            } else {
                assert(k[j] == s.last());
                assert(s[s.len() - 1] == k[j]);
            }
        }
        assert forall|x: NodeId| #[trigger] k.contains(x) == (s.contains(x) && !drop(x)) by {
            if s.contains(x) && !drop(x) {
                let i = choose|i: int| 0 <= i < s.len() && s[i] == x;
                if i < t.len() {
                    assert(t[i] == x);
                    assert(t.contains(x));
                    assert(kt.contains(x));
                    let j = choose|j: int| 0 <= j < kt.len() && kt[j] == x;
                    assert(k[j] == x);
                } else {
                    assert(k[kt.len() as int] == x);
                }
                assert(k.contains(x));
            }
            if k.contains(x) {
                let j = choose|j: int| 0 <= j < k.len() && k[j] == x;
                if j < kt.len() {
                    assert(kt[j] == x);
                    assert(kt.contains(x));
                    assert(t.contains(x));
                    let i = choose|i: int| 0 <= i < t.len() && t[i] == x;
                    assert(s[i] == x);
                } else {
                    assert(s[s.len() - 1] == x);
                }
                assert(s.contains(x));
            }
        }
    }
}

/// The predicate "is `id`".
pub open spec fn equals(id: NodeId) -> spec_fn(NodeId) -> bool {
    |c: NodeId| c == id
}

/// The entries of `v` other than `x`, in order (`retain(|&c| c != x)`).
pub fn retain_ne(v: &Vec<NodeId>, x: NodeId) -> (r: Vec<NodeId>)
    ensures
        r@ == keep(v@, equals(x)),
{
    let mut out: Vec<NodeId> = Vec::new();
    let mut i: usize = 0;
    while i < v.len()
        invariant
            i <= v.len(),
            out@ == keep(v@.subrange(0, i as int), equals(x)),
        decreases v.len() - i,
    {
        let ghost before = out@;
        if v[i] != x {
            out.push(v[i]);
        }
        proof {
            let p = v@.subrange(0, i + 1);
            assert(p.drop_last() =~= v@.subrange(0, i as int));
            assert(p.last() == v@[i as int]);
            assert(out@ =~= keep(p, equals(x)));
        }
        i = i + 1;
    }
    proof {
        assert(v@.subrange(0, v@.len() as int) =~= v@);
    }
    out
}

/// Recolor one mobject in place.
pub fn recolor<P, G>(m: &mut Mobject<P, G>, color: Rgba8)
    ensures
        *final(m) == recolored(*old(m), color),
{
    if m.fill.is_some() {
        m.fill = Some(color);
    }
    if m.stroke.is_some() {
        m.stroke = Some(color);
    }
}

/// The scene graph. Node ids are indices and stay stable: removed nodes
/// are tombstoned, never reused.
#[derive(Clone)]
pub struct SceneGraph<P, G> {
    mobjects: Vec<Mobject<P, G>>,
    parents: Vec<Option<NodeId>>,
    children: Vec<Vec<NodeId>>,
    dirty: Vec<bool>,
    roots: Vec<NodeId>,
    /// Ghost depth witness: a parent's rank is below its child's, so parent
    /// chains are finite; every rank is below `bound`.
    rank: Ghost<Seq<nat>>,
    bound: Ghost<nat>,
}

impl<P, G> SceneGraph<P, G> {
    // ----- abstract view ---------------------------------------------------

    pub closed spec fn spec_len(&self) -> nat {
        self.parents@.len()
    }

    /// The mobjects, indexed by node id.
    pub closed spec fn spec_mobjects(&self) -> Seq<Mobject<P, G>> {
        self.mobjects@
    }

    pub open spec fn spec_mobject(&self, i: NodeId) -> Mobject<P, G> {
        self.spec_mobjects()[i as int]
    }

    pub closed spec fn spec_parent(&self, i: NodeId) -> Option<NodeId> {
        self.parents@[i as int]
    }

    pub closed spec fn spec_children(&self, i: NodeId) -> Seq<NodeId> {
        self.children@[i as int]@
    }

    pub closed spec fn spec_dirty(&self, i: NodeId) -> bool {
        self.dirty@[i as int]
    }

    pub closed spec fn spec_roots(&self) -> Seq<NodeId> {
        self.roots@
    }

    pub closed spec fn spec_rank(&self, i: NodeId) -> nat {
        self.rank@[i as int]
    }

    pub closed spec fn spec_bound(&self) -> nat {
        self.bound@
    }

    /// Parent chains are finite (ranks grow from parent to child), child
    /// lists agree with parent links, and ids are in range.
    pub closed spec fn wf_structure(&self) -> bool {
        &&& self.mobjects@.len() == self.parents@.len()
        &&& self.children@.len() == self.parents@.len()
        &&& self.dirty@.len() == self.parents@.len()
        &&& self.rank@.len() == self.parents@.len()
        &&& forall|i: int| 0 <= i < self.parents@.len() ==> #[trigger] self.rank@[i] < self.bound@
        &&& forall|i: int|
            0 <= i < self.parents@.len() ==> match #[trigger] self.parents@[i] {
                Some(p) => p < self.parents@.len() && self.rank@[p as int] < self.rank@[i],
                None => true,
            }
        &&& forall|i: int, j: int|
            0 <= i < self.parents@.len() && 0 <= j < self.children@[i]@.len() ==> {
                let c = #[trigger] self.children@[i]@[j];
                c < self.parents@.len() && self.parents@[c as int] == Some(i as NodeId)
            }
        &&& forall|j: int| 0 <= j < self.roots@.len() ==> #[trigger] self.roots@[j] < self.parents@.len()
    }

    /// A dirty node's parent is dirty.
    pub open spec fn dirty_propagates(&self) -> bool {
        forall|i: NodeId|
            i < self.spec_len() && #[trigger] self.spec_dirty(i) ==> match self.spec_parent(i) {
                Some(p) => self.spec_dirty(p),
                None => true,
            }
    }

    pub open spec fn wf(&self) -> bool {
        self.wf_structure() && self.dirty_propagates()
    }

    /// `x` is `i` or an ancestor of `i` (on its parent chain).
    pub open spec fn on_chain(&self, i: NodeId, x: NodeId) -> bool
        decreases self.spec_rank(i),
        when self.wf_structure() && i < self.spec_len()
    {
        x == i || match self.spec_parent(i) {
            Some(p) => {
                proof {
                    self.lemma_parent_rank(i);
                }
                self.on_chain(p, x)
            },
            None => false,
        }
    }

    /// `x` is `r` or lies below it, following child lists.
    pub open spec fn in_subtree(&self, r: NodeId, x: NodeId) -> bool
        decreases self.spec_bound() - self.spec_rank(r), self.spec_children(r).len() + 1,
        when self.wf_structure() && r < self.spec_len()
    {
        x == r || self.in_children_prefix(r, self.spec_children(r).len() as int, x)
    }

    /// `x` lies in the subtree of one of the first `k` children of `r`.
    pub open spec fn in_children_prefix(&self, r: NodeId, k: int, x: NodeId) -> bool
        decreases self.spec_bound() - self.spec_rank(r), k,
        when self.wf_structure() && r < self.spec_len() && 0 <= k <= self.spec_children(r).len()
    {
        k > 0 && (self.in_children_prefix(r, k - 1, x) || {
            proof {
                self.lemma_child(r, k - 1);
            }
            self.in_subtree(self.spec_children(r)[k - 1], x)
        })
    }

    /// Path-bearing leaves under `r`, in child order: `r` itself when it
    /// has no children and a non-empty path.
    pub open spec fn leaves(&self, r: NodeId) -> Seq<NodeId>
        decreases self.spec_bound() - self.spec_rank(r), self.spec_children(r).len() + 1,
        when self.wf_structure() && r < self.spec_len()
    {
        if self.spec_children(r).len() == 0 {
            if self.spec_mobject(r).path is Some {
                seq![r]
            } else {
                Seq::empty()
            }
        } else {
            self.leaves_prefix(r, self.spec_children(r).len() as int)
        }
    }

    /// Path-bearing leaves under the first `k` children of `r`.
    pub open spec fn leaves_prefix(&self, r: NodeId, k: int) -> Seq<NodeId>
        decreases self.spec_bound() - self.spec_rank(r), k,
        when self.wf_structure() && r < self.spec_len() && 0 <= k <= self.spec_children(r).len()
    {
        if k <= 0 {
            Seq::empty()
        } else {
            self.leaves_prefix(r, k - 1) + {
                proof {
                    self.lemma_child(r, k - 1);
                }
                self.leaves(self.spec_children(r)[k - 1])
            }
        }
    }

    /// Nodes of the subtree of `r`, `r` first, then each child's subtree
    /// in child order.
    pub open spec fn nodes(&self, r: NodeId) -> Seq<NodeId>
        decreases self.spec_bound() - self.spec_rank(r), self.spec_children(r).len() + 1,
        when self.wf_structure() && r < self.spec_len()
    {
        seq![r] + self.nodes_prefix(r, self.spec_children(r).len() as int)
    }

    /// Nodes of the subtrees of the first `k` children of `r`.
    pub open spec fn nodes_prefix(&self, r: NodeId, k: int) -> Seq<NodeId>
        decreases self.spec_bound() - self.spec_rank(r), k,
        when self.wf_structure() && r < self.spec_len() && 0 <= k <= self.spec_children(r).len()
    {
        if k <= 0 {
            Seq::empty()
        } else {
            self.nodes_prefix(r, k - 1) + {
                proof {
                    self.lemma_child(r, k - 1);
                }
                self.nodes(self.spec_children(r)[k - 1])
            }
        }
    }

    /// `nodes(r)` lists exactly the subtree of `r`.
    pub proof fn lemma_nodes(&self, r: NodeId, x: NodeId)
        requires
            self.wf_structure(),
            r < self.spec_len(),
        ensures
            self.nodes(r).contains(x) == self.in_subtree(r, x),
        decreases self.spec_bound() - self.spec_rank(r), self.spec_children(r).len() + 1,
    {
        let k = self.spec_children(r).len() as int;
        self.lemma_subtree_unfold(r, x);
        self.lemma_nodes_prefix(r, k, x);
        let s = self.nodes(r);
        assert(s == seq![r] + self.nodes_prefix(r, k));
        if self.nodes_prefix(r, k).contains(x) {
            let i = choose|i: int| 0 <= i < self.nodes_prefix(r, k).len() && self.nodes_prefix(r, k)[i] == x;
            assert(s[i + 1] == x);
        }
        if s.contains(x) && x != r {
            let i = choose|i: int| 0 <= i < s.len() && s[i] == x;
            assert(self.nodes_prefix(r, k)[i - 1] == x);
        }
        assert(s[0] == r);
    }

    /// `nodes_prefix(r, k)` lists exactly the subtrees of the first `k`
    /// children of `r`.
    pub proof fn lemma_nodes_prefix(&self, r: NodeId, k: int, x: NodeId)
        requires
            self.wf_structure(),
            r < self.spec_len(),
            0 <= k <= self.spec_children(r).len(),
        ensures
            self.nodes_prefix(r, k).contains(x) == self.in_children_prefix(r, k, x),
        decreases self.spec_bound() - self.spec_rank(r), k,
    {
        self.lemma_prefix_unfold(r, k, x);
        if k > 0 {
            self.lemma_child(r, k - 1);
            let c = self.spec_children(r)[k - 1];
            self.lemma_nodes_prefix(r, k - 1, x);
            self.lemma_nodes(c, x);
            let a = self.nodes_prefix(r, k - 1);
            let b = self.nodes(c);
            let s = self.nodes_prefix(r, k);
            assert(s == a + b);
            if a.contains(x) {
                let i = choose|i: int| 0 <= i < a.len() && a[i] == x;
                assert(s[i] == x);
            }
            if b.contains(x) {
                let i = choose|i: int| 0 <= i < b.len() && b[i] == x;
                assert(s[a.len() + i] == x);
            }
            if s.contains(x) {
                let i = choose|i: int| 0 <= i < s.len() && s[i] == x;
                if i < a.len() {
                    assert(a[i] == x);
                } else {
                    assert(b[i - a.len()] == x);
                }
            }
        }
    }

    /// A child-prefix subtree stays covered by any longer prefix.
    pub proof fn lemma_prefix_mono(&self, r: NodeId, k: int, k2: int, x: NodeId)
        requires
            self.wf_structure(),
            r < self.spec_len(),
            0 <= k <= k2 <= self.spec_children(r).len(),
            self.in_children_prefix(r, k, x),
        ensures
            self.in_children_prefix(r, k2, x),
        decreases k2 - k,
    {
        if k < k2 {
            self.lemma_prefix_mono(r, k, k2 - 1, x);
            self.lemma_prefix_unfold(r, k2, x);
        }
    }

    /// The subtree of a child of `r` lies in the subtree of `r`.
    pub proof fn lemma_child_subtree(&self, r: NodeId, j: int, x: NodeId)
        requires
            self.wf_structure(),
            r < self.spec_len(),
            0 <= j < self.spec_children(r).len(),
            self.in_subtree(self.spec_children(r)[j], x),
        ensures
            self.in_children_prefix(r, self.spec_children(r).len() as int, x),
            self.in_subtree(r, x),
    {
        self.lemma_prefix_unfold(r, j + 1, x);
        self.lemma_prefix_mono(r, j + 1, self.spec_children(r).len() as int, x);
        self.lemma_subtree_unfold(r, x);
    }

    /// Below the root of a subtree, a node's parent is in the subtree too.
    pub proof fn lemma_subtree_parent(&self, r: NodeId, x: NodeId)
        requires
            self.wf_structure(),
            r < self.spec_len(),
            self.in_subtree(r, x),
            x != r,
        ensures
            self.spec_parent(x) matches Some(q) && self.in_subtree(r, q),
        decreases self.spec_bound() - self.spec_rank(r), self.spec_children(r).len() + 1,
    {
        self.lemma_subtree_unfold(r, x);
        self.lemma_prefix_parent(r, self.spec_children(r).len() as int, x);
    }

    /// Helper for `lemma_subtree_parent` over a child prefix.
    pub proof fn lemma_prefix_parent(&self, r: NodeId, k: int, x: NodeId)
        requires
            self.wf_structure(),
            r < self.spec_len(),
            0 <= k <= self.spec_children(r).len(),
            self.in_children_prefix(r, k, x),
        ensures
            self.spec_parent(x) matches Some(q) && self.in_subtree(r, q),
        decreases self.spec_bound() - self.spec_rank(r), k,
    {
        self.lemma_prefix_unfold(r, k, x);
        if self.in_children_prefix(r, k - 1, x) {
            self.lemma_prefix_parent(r, k - 1, x);
        } else {
            self.lemma_child(r, k - 1);
            let c = self.spec_children(r)[k - 1];
            self.lemma_subtree_unfold(r, r);
            if x == c {
                assert(self.in_subtree(r, r));
            } else {
                self.lemma_subtree_parent(c, x);
                let q = self.spec_parent(x)->0;
                self.lemma_child_subtree(r, k - 1, q);
            }
        }
    }

    /// One step of `in_subtree`.
    pub proof fn lemma_subtree_unfold(&self, r: NodeId, x: NodeId)
        requires
            self.wf_structure(),
            r < self.spec_len(),
        ensures
            self.in_subtree(r, x) == (x == r || self.in_children_prefix(
                r,
                self.spec_children(r).len() as int,
                x,
            )),
    {
    }

    /// One step of `in_children_prefix`.
    pub proof fn lemma_prefix_unfold(&self, r: NodeId, k: int, x: NodeId)
        requires
            self.wf_structure(),
            r < self.spec_len(),
            0 <= k <= self.spec_children(r).len(),
        ensures
            self.in_children_prefix(r, k, x) == (k > 0 && (self.in_children_prefix(r, k - 1, x)
                || self.in_subtree(self.spec_children(r)[k - 1], x))),
    {
        if k > 0 {
            self.lemma_child(r, k - 1);
        }
    }

    /// Nodes of a subtree are in range and rank no lower than its root.
    pub proof fn lemma_subtree_rank(&self, r: NodeId, x: NodeId)
        requires
            self.wf_structure(),
            r < self.spec_len(),
            self.in_subtree(r, x),
        ensures
            x < self.spec_len(),
            self.spec_rank(r) <= self.spec_rank(x),
        decreases self.spec_bound() - self.spec_rank(r), self.spec_children(r).len() + 1,
    {
        self.lemma_subtree_unfold(r, x);
        if x != r {
            self.lemma_prefix_rank(r, self.spec_children(r).len() as int, x);
        }
    }

    /// Nodes below the first `k` children of `r` rank above `r`.
    pub proof fn lemma_prefix_rank(&self, r: NodeId, k: int, x: NodeId)
        requires
            self.wf_structure(),
            r < self.spec_len(),
            0 <= k <= self.spec_children(r).len(),
            self.in_children_prefix(r, k, x),
        ensures
            x < self.spec_len(),
            self.spec_rank(r) < self.spec_rank(x),
        decreases self.spec_bound() - self.spec_rank(r), k,
    {
        self.lemma_prefix_unfold(r, k, x);
        if self.in_children_prefix(r, k - 1, x) {
            self.lemma_prefix_rank(r, k - 1, x);
        } else {
            self.lemma_child(r, k - 1);
            self.lemma_subtree_rank(self.spec_children(r)[k - 1], x);
        }
    }

    /// Subtrees depend only on the graph's structure.
    pub proof fn lemma_subtree_same(&self, other: &Self, r: NodeId, x: NodeId)
        requires
            self.wf_structure(),
            other.wf_structure(),
            self.same_structure(other),
            r < self.spec_len(),
        ensures
            self.in_subtree(r, x) == other.in_subtree(r, x),
        decreases self.spec_bound() - self.spec_rank(r), self.spec_children(r).len() + 1,
    {
        self.lemma_subtree_unfold(r, x);
        other.lemma_subtree_unfold(r, x);
        self.lemma_prefix_same(other, r, self.spec_children(r).len() as int, x);
    }

    /// Child-prefix subtrees depend only on the graph's structure.
    pub proof fn lemma_prefix_same(&self, other: &Self, r: NodeId, k: int, x: NodeId)
        requires
            self.wf_structure(),
            other.wf_structure(),
            self.same_structure(other),
            r < self.spec_len(),
            0 <= k <= self.spec_children(r).len(),
        ensures
            self.in_children_prefix(r, k, x) == other.in_children_prefix(r, k, x),
        decreases self.spec_bound() - self.spec_rank(r), k,
    {
        self.lemma_prefix_unfold(r, k, x);
        other.lemma_prefix_unfold(r, k, x);
        if k > 0 {
            self.lemma_prefix_same(other, r, k - 1, x);
            self.lemma_child(r, k - 1);
            self.lemma_subtree_same(other, self.spec_children(r)[k - 1], x);
        }
    }

    pub proof fn lemma_parent_rank(&self, i: NodeId)
        requires
            self.wf_structure(),
            i < self.spec_len(),
        ensures
            self.spec_rank(i) < self.spec_bound(),
            self.spec_parent(i) matches Some(p) ==> p < self.spec_len() && self.spec_rank(p)
                < self.spec_rank(i),
    {
        assert(self.parents@[i as int] == self.spec_parent(i));
        assert(self.rank@[i as int] < self.bound@);
    }

    pub proof fn lemma_child(&self, i: NodeId, j: int)
        requires
            self.wf_structure(),
            i < self.spec_len(),
            0 <= j < self.spec_children(i).len(),
        ensures
            self.spec_children(i)[j] < self.spec_len(),
            self.spec_parent(self.spec_children(i)[j]) == Some(i),
            self.spec_rank(i) < self.spec_rank(self.spec_children(i)[j]),
            self.spec_rank(self.spec_children(i)[j]) < self.spec_bound(),
    {
        let c = self.children@[i as int]@[j];
        assert(c < self.parents@.len() && self.parents@[c as int] == Some(i));
        assert(self.rank@[c as int] < self.bound@);
    }

    /// Some node is dirty.
    pub open spec fn spec_any_dirty(&self) -> bool {
        exists|i: NodeId| i < self.spec_len() && self.spec_dirty(i)
    }

    /// Mobjects, parents, children and roots are as in `other`.
    pub open spec fn same_structure(&self, other: &Self) -> bool {
        &&& self.spec_len() == other.spec_len()
        &&& self.spec_roots() == other.spec_roots()
        &&& forall|i: NodeId|
            i < self.spec_len() ==> self.spec_parent(i) == other.spec_parent(i)
                && self.spec_children(i) == other.spec_children(i)
        &&& forall|i: NodeId|
            i < self.spec_len() ==> self.spec_rank(i) == other.spec_rank(i)
        &&& self.spec_bound() == other.spec_bound()
    }

    // ----- construction and reads -------------------------------------------

    pub fn new() -> (g: Self)
        ensures
            g.wf(),
            g.spec_len() == 0,
            g.spec_roots() == Seq::<NodeId>::empty(),
    {
        SceneGraph {
            mobjects: Vec::new(),
            parents: Vec::new(),
            children: Vec::new(),
            dirty: Vec::new(),
            roots: Vec::new(),
            rank: Ghost(Seq::empty()),
            bound: Ghost(0),
        }
    }

    pub fn len(&self) -> (n: usize)
        ensures
            n == self.spec_len(),
    {
        self.parents.len()
    }

    pub fn is_empty(&self) -> (b: bool)
        ensures
            b == (self.spec_len() == 0),
    {
        self.parents.len() == 0
    }

    pub fn roots(&self) -> (r: &[NodeId])
        ensures
            r@ == self.spec_roots(),
    {
        self.roots.as_slice()
    }

    pub fn get(&self, id: NodeId) -> (m: &Mobject<P, G>)
        requires
            self.wf_structure(),
            id < self.spec_len(),
        ensures
            *m == self.spec_mobject(id),
    {
        &self.mobjects[id]
    }

    pub fn children_of(&self, id: NodeId) -> (c: &[NodeId])
        requires
            self.wf_structure(),
            id < self.spec_len(),
        ensures
            c@ == self.spec_children(id),
    {
        self.children[id].as_slice()
    }

    pub fn parent(&self, id: NodeId) -> (p: Option<NodeId>)
        requires
            self.wf_structure(),
            id < self.spec_len(),
        ensures
            p == self.spec_parent(id),
    {
        self.parents[id]
    }

    pub fn is_dirty(&self, id: NodeId) -> (d: bool)
        requires
            self.wf_structure(),
            id < self.spec_len(),
        ensures
            d == self.spec_dirty(id),
    {
        self.dirty[id]
    }

    pub fn any_dirty(&self) -> (b: bool)
        requires
            self.wf_structure(),
        ensures
            b == self.spec_any_dirty(),
    {
        let mut i: usize = 0;
        while i < self.dirty.len()
            invariant
                self.wf_structure(),
                i <= self.dirty@.len(),
                forall|k: NodeId| k < i ==> !self.spec_dirty(k),
            decreases self.dirty.len() - i,
        {
            if self.dirty[i] {
                assert(self.spec_dirty(i));
                return true;
            }
            i = i + 1;
        }
        false
    }

    // ----- dirty tracking ----------------------------------------------------

    /// Every node on a dirty node's parent chain is dirty.
    pub proof fn lemma_dirty_chain(&self, i: NodeId, x: NodeId)
        requires
            self.wf(),
            i < self.spec_len(),
            self.spec_dirty(i),
            self.on_chain(i, x),
        ensures
            self.spec_dirty(x),
        decreases self.spec_rank(i),
    {
        if x != i {
            self.lemma_parent_rank(i);
            match self.spec_parent(i) {
                Some(p) => {
                    self.lemma_dirty_chain(p, x);
                },
                None => {},
            }
        }
    }

    /// Nodes on a parent chain are in range.
    pub proof fn lemma_chain_in_range(&self, i: NodeId, x: NodeId)
        requires
            self.wf_structure(),
            i < self.spec_len(),
            self.on_chain(i, x),
        ensures
            x < self.spec_len(),
        decreases self.spec_rank(i),
    {
        if x != i {
            self.lemma_parent_rank(i);
            match self.spec_parent(i) {
                Some(p) => {
                    self.lemma_chain_in_range(p, x);
                },
                None => {},
            }
        }
    }

    /// Parent links and ranks agree (child lists and roots may differ).
    pub open spec fn same_links(&self, other: &Self) -> bool {
        &&& self.spec_len() == other.spec_len()
        &&& self.spec_bound() == other.spec_bound()
        &&& forall|i: NodeId|
            i < self.spec_len() ==> #[trigger] self.spec_parent(i) == other.spec_parent(i)
                && self.spec_rank(i) == other.spec_rank(i)
    }

    /// `on_chain` reads only parent links.
    pub proof fn lemma_chain_same_links(&self, other: &Self, i: NodeId, x: NodeId)
        requires
            self.wf_structure(),
            other.wf_structure(),
            i < self.spec_len(),
            self.same_links(other),
        ensures
            self.on_chain(i, x) == other.on_chain(i, x),
        decreases self.spec_rank(i),
    {
        self.lemma_parent_rank(i);
        self.lemma_chain_unfold(i, x);
        other.lemma_chain_unfold(i, x);
        assert(self.spec_parent(i) == other.spec_parent(i));
        match self.spec_parent(i) {
            Some(p) => {
                self.lemma_chain_same_links(other, p, x);
            },
            None => {},
        }
    }

    /// `on_chain` depends only on parent links.
    pub proof fn lemma_chain_same_structure(&self, other: &Self, i: NodeId, x: NodeId)
        requires
            self.wf_structure(),
            other.wf_structure(),
            i < self.spec_len(),
            self.same_structure(other),
        ensures
            self.on_chain(i, x) == other.on_chain(i, x),
        decreases self.spec_rank(i),
    {
        self.lemma_parent_rank(i);
        match self.spec_parent(i) {
            Some(p) => {
                self.lemma_chain_same_structure(other, p, x);
            },
            None => {},
        }
    }

    /// One step of `on_chain`.
    pub proof fn lemma_chain_unfold(&self, i: NodeId, x: NodeId)
        requires
            self.wf_structure(),
            i < self.spec_len(),
        ensures
            self.on_chain(i, x) == (x == i || match self.spec_parent(i) {
                Some(p) => self.on_chain(p, x),
                None => false,
            }),
    {
    }

    /// Whether `x` is `i` or one of its ancestors. `reparent(id, Some(p))`
    /// needs this to be false of `p` and `id`.
    pub fn on_parent_chain(&self, i: NodeId, x: NodeId) -> (b: bool)
        requires
            self.wf_structure(),
            i < self.spec_len(),
        ensures
            b == self.on_chain(i, x),
    {
        let mut c = i;
        loop
            invariant
                self.wf_structure(),
                c < self.spec_len(),
                self.on_chain(i, x) == self.on_chain(c, x),
            decreases self.spec_rank(c),
        {
            proof {
                self.lemma_chain_unfold(c, x);
                self.lemma_parent_rank(c);
            }
            if c == x {
                return true;
            }
            match self.parent(c) {
                Some(p) => {
                    c = p;
                },
                None => {
                    return false;
                },
            }
        }
    }

    /// Mark `id` and its ancestors dirty (a mutated node's cached subtree
    /// is stale in every ancestor).
    pub fn mark_dirty(&mut self, id: NodeId)
        requires
            old(self).wf(),
            id < old(self).spec_len(),
        ensures
            final(self).wf(),
            final(self).same_structure(&*old(self)),
            final(self).spec_mobjects() == old(self).spec_mobjects(),
            forall|x: NodeId|
                x < final(self).spec_len() ==> (#[trigger] final(self).spec_dirty(x) == (old(
                    self,
                ).spec_dirty(x) || old(self).on_chain(id, x))),
    {
        let ghost g0 = *self;
        let mut cur: Option<NodeId> = Some(id);
        proof {
            g0.lemma_chain_unfold(id, id);
        }
        loop
            invariant_except_break
                self.wf_structure(),
                self.same_structure(&g0),
                g0.wf(),
                id < g0.spec_len(),
                self.mobjects@ == g0.mobjects@,
                cur matches Some(i) ==> i < self.spec_len() && g0.on_chain(id, i),
                forall|x: NodeId|
                    x < self.spec_len() ==> (#[trigger] self.spec_dirty(x) == (g0.spec_dirty(x)
                        || (g0.on_chain(id, x) && match cur {
                        Some(i) => !g0.on_chain(i, x),
                        None => true,
                    }))),
                forall|x: NodeId|
                    x < self.spec_len() && #[trigger] self.spec_dirty(x) ==> match self.spec_parent(
                        x,
                    ) {
                        Some(p) => self.spec_dirty(p) || cur == Some(p),
                        None => true,
                    },
            ensures
                self.wf(),
                self.same_structure(&g0),
                self.mobjects@ == g0.mobjects@,
                forall|x: NodeId|
                    x < self.spec_len() ==> (#[trigger] self.spec_dirty(x) == (g0.spec_dirty(x)
                        || g0.on_chain(id, x))),
            decreases match cur {
                Some(i) => g0.spec_rank(i) + 1,
                None => 0,
            },
        {
            match cur {
                None => {
                    break;
                },
                Some(i) => {
                    proof {
                        g0.lemma_parent_rank(i);
                        g0.lemma_chain_unfold(i, i);
                    }
                    if self.dirty[i] {
                        proof {
                            // `i` is not among the nodes this walk marked, so it
                            // was dirty already, and so was its whole chain
                            assert(self.spec_dirty(i));
                            assert(g0.spec_dirty(i));
                            assert forall|x: NodeId| x < self.spec_len() implies (
                            #[trigger] self.spec_dirty(x) == (g0.spec_dirty(x) || g0.on_chain(
                                id,
                                x,
                            ))) by {
                                if g0.on_chain(i, x) {
                                    g0.lemma_dirty_chain(i, x);
                                }
                            }
                        }
                        break;
                    }
                    let ghost before = *self;
                    self.dirty.set(i, true);
                    let next = self.parents[i];
                    proof {
                        assert(g0.spec_parent(i) == next);
                        assert forall|x: NodeId| x < self.spec_len() implies (
                        #[trigger] self.spec_dirty(x) == (g0.spec_dirty(x) || (g0.on_chain(id, x)
                            && match next {
                            Some(p) => !g0.on_chain(p, x),
                            None => true,
                        }))) by {
                            g0.lemma_chain_unfold(i, x);
                            if x == i {
                                match next {
                                    Some(p) => {
                                        if g0.on_chain(p, i) {
                                            lemma_chain_rank(&g0, p, i);
                                        }
                                    },
                                    None => {},
                                }
                            } else {
                                assert(self.spec_dirty(x) == before.spec_dirty(x));
                            }
                        }
                        assert forall|x: NodeId|
                            x < self.spec_len() && #[trigger] self.spec_dirty(x) implies match self.spec_parent(
                            x,
                        ) {
                            Some(p) => self.spec_dirty(p) || next == Some(p),
                            None => true,
                        } by {
                            if x != i {
                                assert(before.spec_dirty(x));
                            }
                        }
                        match next {
                            Some(p) => {
                                lemma_chain_step(&g0, id, i, p);
                            },
                            None => {},
                        }
                    }
                    cur = next;
                },
            }
        }
    }

    /// Mark every node clean (called by the renderer once a frame is out).
    pub fn clear_dirty(&mut self)
        requires
            old(self).wf(),
        ensures
            final(self).wf(),
            final(self).same_structure(&*old(self)),
            forall|x: NodeId|
                x < final(self).spec_len() ==> final(self).spec_mobject(x) == old(self).spec_mobject(
                    x,
                ) && !final(self).spec_dirty(x),
    {
        let n = self.dirty.len();
        let mut i: usize = 0;
        let ghost g0 = *self;
        while i < n
            invariant
                n == self.dirty@.len(),
                i <= n,
                self.wf_structure(),
                self.same_structure(&g0),
                self.mobjects@ == g0.mobjects@,
                forall|x: NodeId| x < i ==> !self.spec_dirty(x),
            decreases n - i,
        {
            let ghost before = *self;
            self.dirty.set(i, false);
            proof {
                assert forall|x: NodeId| x < i + 1 implies !self.spec_dirty(x) by {
                    if x < i {
                        assert(!before.spec_dirty(x));
                    }
                }
            }
            i = i + 1;
        }
    }

    // ----- growth -------------------------------------------------------------

    /// Add a root mobject. New nodes start dirty.
    pub fn add(&mut self, mobject: Mobject<P, G>) -> (id: NodeId)
        requires
            old(self).wf(),
            old(self).spec_len() < usize::MAX,
        ensures
            final(self).wf(),
            id == old(self).spec_len(),
            final(self).spec_len() == old(self).spec_len() + 1,
            final(self).spec_mobject(id) == mobject,
            final(self).spec_parent(id) is None,
            final(self).spec_children(id) == Seq::<NodeId>::empty(),
            final(self).spec_dirty(id),
            final(self).spec_roots() == old(self).spec_roots().push(id),
            forall|x: NodeId|
                x < old(self).spec_len() ==> final(self).spec_mobject(x) == old(self).spec_mobject(
                    x,
                ) && final(self).spec_parent(x) == old(self).spec_parent(x) && final(self).spec_children(x) == old(self).spec_children(x) && final(self).spec_dirty(x)
                    == old(self).spec_dirty(x) && final(self).spec_rank(x) == old(self).spec_rank(
                    x,
                ),
            final(self).spec_bound() == old(self).spec_bound() + 1,
            final(self).spec_rank(id) == old(self).spec_bound(),
    {
        let id = self.mobjects.len();
        self.mobjects.push(mobject);
        self.parents.push(None);
        self.children.push(Vec::new());
        self.dirty.push(true);
        self.roots.push(id);
        let ghost b = self.bound@;
        proof {
            self.rank@ = self.rank@.push(b);
            self.bound@ = b + 1;
        }
        proof {
            assert forall|i: int, j: int|
                0 <= i < self.parents@.len() && 0 <= j < self.children@[i]@.len() implies {
                let c = #[trigger] self.children@[i]@[j];
                c < self.parents@.len() && self.parents@[c as int] == Some(i as NodeId)
            } by {
                if i < id {
                    assert(self.children@[i] == old(self).children@[i]);
                    let c = self.children@[i]@[j];
                    assert(old(self).children@[i]@[j] == c);
                    assert(old(self).parents@[c as int] == Some(i as NodeId));
                }
            }
            assert forall|x: NodeId|
                x < self.spec_len() && #[trigger] self.spec_dirty(x) implies match self.spec_parent(
                x,
            ) {
                Some(p) => self.spec_dirty(p),
                None => true,
            } by {
                if x < id {
                    assert(old(self).spec_dirty(x));
                }
            }
        }
        id
    }

    /// Add a mobject as the last child of `parent`; the parent (and its
    /// ancestors) become dirty.
    pub fn add_child(&mut self, parent: NodeId, mobject: Mobject<P, G>) -> (id: NodeId)
        requires
            old(self).wf(),
            parent < old(self).spec_len(),
            old(self).spec_len() < usize::MAX,
        ensures
            final(self).wf(),
            id == old(self).spec_len(),
            final(self).spec_len() == old(self).spec_len() + 1,
            final(self).spec_mobject(id) == mobject,
            final(self).spec_parent(id) == Some(parent),
            final(self).spec_children(id) == Seq::<NodeId>::empty(),
            final(self).spec_dirty(id),
            final(self).spec_roots() == old(self).spec_roots(),
            final(self).spec_children(parent) == old(self).spec_children(parent).push(id),
            forall|x: NodeId|
                x < old(self).spec_len() ==> final(self).spec_mobject(x) == old(self).spec_mobject(
                    x,
                ) && final(self).spec_parent(x) == old(self).spec_parent(x) && (x != parent
                    ==> final(self).spec_children(x) == old(self).spec_children(x)) && final(self).spec_dirty(x) == (old(self).spec_dirty(x) || old(self).on_chain(parent, x))
                    && final(self).spec_rank(x) == old(self).spec_rank(x),
    {
        proof {
            old(self).lemma_parent_rank(parent);
        }
        // Marking before appending gives the same flags as marking after:
        // the walk only reads the parent's chain, which the append leaves
        // alone.
        self.mark_dirty(parent);
        let ghost g1 = *self;
        proof {
            assert(old(self).on_chain(parent, parent));
            assert(g1.spec_dirty(parent));
        }
        let id = self.mobjects.len();
        self.mobjects.push(mobject);
        self.parents.push(Some(parent));
        self.children.push(Vec::new());
        self.dirty.push(true);
        self.children[parent].push(id);
        let ghost b = self.bound@;
        let ghost r = self.rank@[parent as int] + 1;
        proof {
            self.rank@ = self.rank@.push(r);
            self.bound@ = if r + 1 > b {
                r + 1
            } else {
                b
            };
        }
        proof {
            assert forall|i: int, j: int|
                0 <= i < self.parents@.len() && 0 <= j < self.children@[i]@.len() implies {
                let c = #[trigger] self.children@[i]@[j];
                c < self.parents@.len() && self.parents@[c as int] == Some(i as NodeId)
            } by {
                if i < id {
                    if i != parent || j < g1.children@[i]@.len() {
                        assert(self.children@[i]@[j] == g1.children@[i]@[j]);
                        let c = self.children@[i]@[j];
                        assert(g1.spec_children(i as NodeId)[j] == c);
                        g1.lemma_child(i as NodeId, j);
                    }
                }
            }
            assert forall|i: int| 0 <= i < self.parents@.len() implies match #[trigger] self.parents@[i] {
                Some(p) => p < self.parents@.len() && self.rank@[p as int] < self.rank@[i],
                None => true,
            } by {
                if i < id {
                    assert(self.parents@[i] == g1.parents@[i]);
                    g1.lemma_parent_rank(i as NodeId);
                }
            }
            assert forall|i: int| 0 <= i < self.parents@.len() implies #[trigger] self.rank@[i]
                < self.bound@ by {
                if i < id {
                    assert(self.rank@[i] == g1.rank@[i]);
                    g1.lemma_parent_rank(i as NodeId);
                }
            }
            assert forall|j: int| 0 <= j < self.roots@.len() implies #[trigger] self.roots@[j]
                < self.parents@.len() by {
                assert(g1.spec_roots()[j] == self.roots@[j]);
            }
            assert forall|x: NodeId|
                x < self.spec_len() && #[trigger] self.spec_dirty(x) implies match self.spec_parent(
                x,
            ) {
                Some(p) => self.spec_dirty(p),
                None => true,
            } by {
                if x < id {
                    assert(g1.spec_dirty(x));
                }
            }
            assert forall|x: NodeId| x < old(self).spec_len() implies final(self).spec_mobject(x)
                == old(self).spec_mobject(x) && final(self).spec_parent(x) == old(self).spec_parent(
                x,
            ) && (x != parent ==> final(self).spec_children(x) == old(self).spec_children(x))
                && final(self).spec_dirty(x) == (old(self).spec_dirty(x) || old(self).on_chain(
                parent,
                x,
            )) && final(self).spec_rank(x) == old(self).spec_rank(x) by {
                assert(g1.spec_dirty(x) == (old(self).spec_dirty(x) || old(self).on_chain(
                    parent,
                    x,
                )));
                assert(self.spec_mobject(x) == g1.spec_mobject(x));
                assert(self.spec_parent(x) == g1.spec_parent(x));
                assert(self.spec_rank(x) == g1.spec_rank(x));
                assert(self.spec_dirty(x) == g1.spec_dirty(x));
                if x != parent {
                    assert(self.spec_children(x) == g1.spec_children(x));
                }
            }
        }
        id
    }

    /// Mutable access to a node's mobject; the node and its ancestors are
    /// marked dirty first.
    pub fn get_mut(&mut self, id: NodeId) -> (m: &mut Mobject<P, G>)
        requires
            old(self).wf(),
            id < old(self).spec_len(),
        ensures
            *m == old(self).spec_mobject(id),
            final(self).wf(),
            final(self).same_structure(&*old(self)),
            final(self).spec_mobject(id) == *final(m),
            forall|x: NodeId|
                x < final(self).spec_len() && x != id ==> final(self).spec_mobject(x) == old(self).spec_mobject(x),
            forall|x: NodeId|
                x < final(self).spec_len() ==> (final(self).spec_dirty(x) == (old(self).spec_dirty(
                    x,
                ) || old(self).on_chain(id, x))),
    {
        self.mark_dirty(id);
        self.mobject_slot(id)
    }

    /// Borrow one mobject; every other part of the graph stays as it is.
    fn mobject_slot(&mut self, id: NodeId) -> (m: &mut Mobject<P, G>)
        requires
            old(self).wf_structure(),
            id < old(self).spec_len(),
        ensures
            *m == old(self).mobjects@[id as int],
            final(self).mobjects@ == old(self).mobjects@.update(id as int, *final(m)),
            final(self).parents == old(self).parents,
            final(self).children == old(self).children,
            final(self).dirty == old(self).dirty,
            final(self).roots == old(self).roots,
            final(self).rank == old(self).rank,
            final(self).bound == old(self).bound,
            final(self).wf_structure(),
            final(self).same_structure(&*old(self)),
            forall|x: NodeId| #[trigger] final(self).spec_dirty(x) == old(self).spec_dirty(x),
            forall|x: NodeId|
                x < final(self).spec_len() && x != id ==> #[trigger] final(self).spec_mobject(x)
                    == old(self).spec_mobject(x),
            final(self).spec_mobject(id) == *final(m),
    {
        &mut self.mobjects[id]
    }

    /// Recolor `id` and every node below it (Manim `set_color` on a
    /// family): present fills and strokes take `color`. Each recolored node
    /// is marked dirty with its ancestors.
    pub fn set_color(&mut self, id: NodeId, color: Rgba8)
        requires
            old(self).wf(),
            id < old(self).spec_len(),
        ensures
            final(self).wf(),
            final(self).same_structure(&*old(self)),
            forall|x: NodeId|
                x < final(self).spec_len() ==> #[trigger] final(self).spec_mobject(x) == if old(
                    self,
                ).in_subtree(id, x) {
                    recolored(old(self).spec_mobject(x), color)
                } else {
                    old(self).spec_mobject(x)
                },
            forall|x: NodeId|
                x < final(self).spec_len() ==> #[trigger] final(self).spec_dirty(x) == (old(
                    self,
                ).spec_dirty(x) || old(self).in_subtree(id, x) || old(self).on_chain(id, x)),
        decreases old(self).spec_bound() - old(self).spec_rank(id),
    {
        let ghost g0 = *self;
        proof {
            g0.lemma_parent_rank(id);
        }
        let n = self.children[id].len();
        let mut k: usize = 0;
        while k < n
            invariant
                g0 == *old(self),
                self.wf(),
                self.same_structure(&g0),
                g0.wf(),
                id < g0.spec_len(),
                n == g0.spec_children(id).len(),
                k <= n,
                forall|x: NodeId|
                    x < self.spec_len() ==> #[trigger] self.spec_mobject(x) == if g0.in_children_prefix(
                        id,
                        k as int,
                        x,
                    ) {
                        recolored(g0.spec_mobject(x), color)
                    } else {
                        g0.spec_mobject(x)
                    },
                forall|x: NodeId|
                    x < self.spec_len() ==> #[trigger] self.spec_dirty(x) == (g0.spec_dirty(x)
                        || g0.in_children_prefix(id, k as int, x) || (k > 0 && g0.on_chain(id, x))),
            decreases n - k,
        {
            let c = self.children[id][k];
            proof {
                assert(c == g0.spec_children(id)[k as int]);
                g0.lemma_child(id, k as int);
            }
            let ghost mid = *self;
            proof {
                assert(mid.spec_rank(c) == g0.spec_rank(c));
                assert(mid.spec_bound() - mid.spec_rank(c) < g0.spec_bound() - g0.spec_rank(id));
            }
            self.set_color(c, color);
            proof {
                assert forall|x: NodeId| x < self.spec_len() implies #[trigger] self.spec_mobject(x)
                    == if g0.in_children_prefix(id, k + 1, x) {
                    recolored(g0.spec_mobject(x), color)
                } else {
                    g0.spec_mobject(x)
                } by {
                    g0.lemma_prefix_unfold(id, k + 1, x);
                    mid.lemma_subtree_same(&g0, c, x);
                    assert(mid.spec_mobject(x) == if g0.in_children_prefix(id, k as int, x) {
                        recolored(g0.spec_mobject(x), color)
                    } else {
                        g0.spec_mobject(x)
                    });
                }
                assert forall|x: NodeId| x < self.spec_len() implies #[trigger] self.spec_dirty(x)
                    == (g0.spec_dirty(x) || g0.in_children_prefix(id, k + 1, x) || (k + 1 > 0
                    && g0.on_chain(id, x))) by {
                    g0.lemma_prefix_unfold(id, k + 1, x);
                    mid.lemma_subtree_same(&g0, c, x);
                    mid.lemma_chain_same_structure(&g0, c, x);
                    g0.lemma_chain_unfold(c, x);
                    g0.lemma_subtree_unfold(c, x);
                    assert(mid.spec_dirty(x) == (g0.spec_dirty(x) || g0.in_children_prefix(
                        id,
                        k as int,
                        x,
                    ) || (k > 0 && g0.on_chain(id, x))));
                }
            }
            k = k + 1;
        }
        let ghost before = *self;
        let m = self.get_mut(id);
        recolor(m, color);
        proof {
            assert forall|x: NodeId| x < self.spec_len() implies #[trigger] self.spec_mobject(x)
                == if g0.in_subtree(id, x) {
                recolored(g0.spec_mobject(x), color)
            } else {
                g0.spec_mobject(x)
            } by {
                g0.lemma_subtree_unfold(id, x);
                if x == id {
                    if g0.in_children_prefix(id, n as int, id) {
                        g0.lemma_prefix_rank(id, n as int, id);
                    }
                } else {
                    assert(self.spec_mobject(x) == before.spec_mobject(x));
                }
            }
            assert forall|x: NodeId| x < self.spec_len() implies #[trigger] self.spec_dirty(x) == (
            g0.spec_dirty(x) || g0.in_subtree(id, x) || g0.on_chain(id, x)) by {
                g0.lemma_subtree_unfold(id, x);
                before.lemma_chain_same_structure(&g0, id, x);
                g0.lemma_chain_unfold(id, x);
                assert(before.spec_dirty(x) == (g0.spec_dirty(x) || g0.in_children_prefix(
                    id,
                    n as int,
                    x,
                ) || (n > 0 && g0.on_chain(id, x))));
            }
        }
    }

    /// Path-bearing leaves under `id` (the node itself if it has a path and
    /// no children). Used by Create/Write on groups such as formulas.
    pub fn path_leaves(&self, id: NodeId) -> (out: Vec<NodeId>)
        requires
            self.wf_structure(),
            id < self.spec_len(),
        ensures
            out@ == self.leaves(id),
    {
        let mut out: Vec<NodeId> = Vec::new();
        self.collect_path_leaves(id, &mut out);
        proof {
            assert(out@ =~= self.leaves(id));
        }
        out
    }

    fn collect_path_leaves(&self, id: NodeId, out: &mut Vec<NodeId>)
        requires
            self.wf_structure(),
            id < self.spec_len(),
        ensures
            final(out)@ == old(out)@ + self.leaves(id),
        decreases self.spec_bound() - self.spec_rank(id),
    {
        proof {
            self.lemma_parent_rank(id);
        }
        let n = self.children[id].len();
        if n == 0 {
            if self.mobjects[id].path.is_some() {
                out.push(id);
            }
            proof {
                assert(out@ =~= old(out)@ + self.leaves(id)) by {
                    assert(self.spec_children(id).len() == 0);
                }
            }
            return;
        }
        let mut k: usize = 0;
        while k < n
            invariant
                self.wf_structure(),
                id < self.spec_len(),
                n == self.spec_children(id).len(),
                k <= n,
                out@ == old(out)@ + self.leaves_prefix(id, k as int),
            decreases n - k,
        {
            let c = self.children[id][k];
            proof {
                self.lemma_child(id, k as int);
                assert(c == self.spec_children(id)[k as int]);
            }
            let ghost before = out@;
            self.collect_path_leaves(c, out);
            proof {
                assert(self.leaves_prefix(id, k + 1) == self.leaves_prefix(id, k as int)
                    + self.leaves(c));
                assert(out@ =~= old(out)@ + self.leaves_prefix(id, k + 1));
            }
            k = k + 1;
        }
    }

    /// The nodes of the subtree of `id`, `id` first, then each child's
    /// subtree in child order.
    pub fn subtree_nodes(&self, id: NodeId) -> (out: Vec<NodeId>)
        requires
            self.wf_structure(),
            id < self.spec_len(),
        ensures
            out@ == self.nodes(id),
    {
        let mut out: Vec<NodeId> = Vec::new();
        self.collect_nodes(id, &mut out);
        proof {
            assert(out@ =~= self.nodes(id));
        }
        out
    }

    fn collect_nodes(&self, id: NodeId, out: &mut Vec<NodeId>)
        requires
            self.wf_structure(),
            id < self.spec_len(),
        ensures
            final(out)@ == old(out)@ + self.nodes(id),
        decreases self.spec_bound() - self.spec_rank(id),
    {
        proof {
            self.lemma_parent_rank(id);
        }
        out.push(id);
        let n = self.children[id].len();
        let mut k: usize = 0;
        while k < n
            invariant
                self.wf_structure(),
                id < self.spec_len(),
                n == self.spec_children(id).len(),
                k <= n,
                out@ == old(out)@ + seq![id] + self.nodes_prefix(id, k as int),
            decreases n - k,
        {
            let c = self.children[id][k];
            proof {
                self.lemma_child(id, k as int);
                assert(c == self.spec_children(id)[k as int]);
            }
            self.collect_nodes(c, out);
            proof {
                assert(self.nodes_prefix(id, k + 1) == self.nodes_prefix(id, k as int) + self.nodes(
                    c,
                ));
                assert(out@ =~= old(out)@ + seq![id] + self.nodes_prefix(id, k + 1));
            }
            k = k + 1;
        }
        proof {
            assert(old(out)@ + seq![id] + self.nodes_prefix(id, n as int) =~= old(out)@
                + self.nodes(id));
        }
    }

    /// Remove `id` and everything below it. Node ids stay stable: removed
    /// nodes are tombstoned (hidden, path emptied, children detached), `id`
    /// leaves its parent's child list, and the subtree leaves the roots.
    /// The removed nodes and `id`'s ancestors are marked dirty.
    pub fn remove(&mut self, id: NodeId)
        requires
            old(self).wf(),
            id < old(self).spec_len(),
        ensures
            final(self).wf(),
            final(self).same_links(&*old(self)),
            forall|x: NodeId|
                x < final(self).spec_len() ==> #[trigger] final(self).spec_mobject(x) == if old(
                    self,
                ).in_subtree(id, x) {
                    tombstoned(old(self).spec_mobject(x))
                } else {
                    old(self).spec_mobject(x)
                },
            forall|x: NodeId|
                x < final(self).spec_len() ==> #[trigger] final(self).spec_children(x) == if old(
                    self,
                ).in_subtree(id, x) {
                    Seq::empty()
                } else if old(self).spec_parent(id) == Some(x) {
                    keep(old(self).spec_children(x), equals(id))
                } else {
                    old(self).spec_children(x)
                },
            final(self).spec_roots() == keep(
                old(self).spec_roots(),
                |r: NodeId| old(self).in_subtree(id, r),
            ),
            forall|x: NodeId|
                x < final(self).spec_len() ==> #[trigger] final(self).spec_dirty(x) == (old(
                    self,
                ).spec_dirty(x) || old(self).in_subtree(id, x) || old(self).on_chain(id, x)),
    {
        let ghost g0 = *self;
        let n = self.parents.len();
        // which nodes go
        let list = self.subtree_nodes(id);
        let mut gone: Vec<bool> = Vec::new();
        let mut i: usize = 0;
        while i < n
            invariant
                i <= n,
                gone@.len() == i,
                forall|x: int| 0 <= x < i ==> !gone@[x],
            decreases n - i,
        {
            gone.push(false);
            i = i + 1;
        }
        let mut j: usize = 0;
        while j < list.len()
            invariant
                g0 == *old(self),
                g0.wf(),
                id < g0.spec_len(),
                n == g0.spec_len(),
                list@ == g0.nodes(id),
                j <= list.len(),
                gone@.len() == n,
                forall|x: NodeId| x < n ==> #[trigger] gone@[x as int] == list@.subrange(
                    0,
                    j as int,
                ).contains(x),
            decreases list.len() - j,
        {
            let x = list[j];
            proof {
                g0.lemma_nodes(id, x);
                assert(list@.contains(x));
                g0.lemma_subtree_rank(id, x);
            }
            let ghost before = gone@;
            gone.set(x, true);
            proof {
                assert forall|y: NodeId| y < n implies #[trigger] gone@[y as int]
                    == list@.subrange(0, j + 1).contains(y) by {
                    let p = list@.subrange(0, j + 1);
                    assert(p =~= list@.subrange(0, j as int).push(x));
                    if y != x {
                        assert(gone@[y as int] == before[y as int]);
                        if p.contains(y) {
                            let k = choose|k: int| 0 <= k < p.len() && p[k] == y;
                            assert(list@.subrange(0, j as int)[k] == y);
                        }
                    } else {
                        assert(p[j as int] == x);
                    }
                }
            }
            j = j + 1;
        }
        proof {
            assert(list@.subrange(0, list@.len() as int) =~= list@);
            assert forall|x: NodeId| x < n implies #[trigger] gone@[x as int] == g0.in_subtree(id, x) by {
                g0.lemma_nodes(id, x);
            }
        }
        // detach from the parent and mark its chain
        match self.parents[id] {
            Some(p) => {
                proof {
                    g0.lemma_parent_rank(id);
                }
                let kept = retain_ne(&self.children[p], id);
                let ghost before = *self;
                self.children.set(p, kept);
                proof {
                    lemma_keep(before.spec_children(p), equals(id));
                    assert forall|i: int, j: int|
                        0 <= i < self.parents@.len() && 0 <= j < self.children@[i]@.len() implies {
                        let c = #[trigger] self.children@[i]@[j];
                        c < self.parents@.len() && self.parents@[c as int] == Some(i as NodeId)
                    } by {
                        if i == p {
                            let c = self.children@[i]@[j];
                            assert(keep(before.spec_children(p), equals(id))[j] == c);
                            assert(before.spec_children(p).contains(c));
                            let k = choose|k: int|
                                0 <= k < before.spec_children(p).len() && before.spec_children(
                                    p,
                                )[k] == c;
                            before.lemma_child(p, k);
                        } else {
                            assert(self.children@[i] == before.children@[i]);
                            before.lemma_child(i as NodeId, j);
                        }
                    }
                    assert(self.wf_structure());
                    assert forall|x: NodeId|
                        x < self.spec_len() && #[trigger] self.spec_dirty(x) implies match self.spec_parent(
                        x,
                    ) {
                        Some(q) => self.spec_dirty(q),
                        None => true,
                    } by {
                        assert(before.spec_dirty(x));
                    }
                }
                let ghost mid = *self;
                self.mark_dirty(p);
                proof {
                    assert forall|x: NodeId| x < n implies mid.on_chain(p, x) == g0.on_chain(p, x) by {
                        mid.lemma_chain_same_links(&g0, p, x);
                    }
                }
            },
            None => {},
        }
        let ghost g1 = *self;
        // drop the subtree from the roots
        let mut roots: Vec<NodeId> = Vec::new();
        let mut r: usize = 0;
        while r < self.roots.len()
            invariant
                g1 == *self,
                g1.wf_structure(),
                gone@.len() == n,
                n == g1.spec_len(),
                r <= g1.roots@.len(),
                forall|x: NodeId| x < n ==> #[trigger] gone@[x as int] == g0.in_subtree(id, x),
                roots@ == keep(
                    g1.roots@.subrange(0, r as int),
                    |q: NodeId| g0.in_subtree(id, q),
                ),
            decreases g1.roots@.len() - r,
        {
            let q = self.roots[r];
            proof {
                assert(q < n);
            }
            let ghost before = roots@;
            if !gone[q] {
                roots.push(q);
            }
            proof {
                let s = g1.roots@.subrange(0, r + 1);
                assert(s.drop_last() =~= g1.roots@.subrange(0, r as int));
                assert(s.last() == q);
                assert(roots@ =~= keep(s, |q: NodeId| g0.in_subtree(id, q)));
            }
            r = r + 1;
        }
        proof {
            assert(g1.roots@.subrange(0, g1.roots@.len() as int) =~= g1.roots@);
            lemma_keep(g1.roots@, |q: NodeId| g0.in_subtree(id, q));
        }
        self.roots = roots;
        // tombstone the subtree
        let mut k: usize = 0;
        while k < list.len()
            invariant
                g0 == *old(self),
                g0.wf(),
                id < g0.spec_len(),
                n == g0.spec_len(),
                list@ == g0.nodes(id),
                k <= list.len(),
                self.wf_structure(),
                g1.wf(),
                g1.spec_len() == n,
                self.spec_len() == n,
                self.same_links(&g1),
                self.roots@ == keep(g1.roots@, |q: NodeId| g0.in_subtree(id, q)),
                forall|x: NodeId|
                    x < n ==> #[trigger] self.spec_mobject(x) == if list@.subrange(
                        0,
                        k as int,
                    ).contains(x) {
                        tombstoned(g1.spec_mobject(x))
                    } else {
                        g1.spec_mobject(x)
                    },
                forall|x: NodeId|
                    x < n ==> #[trigger] self.spec_children(x) == if list@.subrange(
                        0,
                        k as int,
                    ).contains(x) {
                        Seq::empty()
                    } else {
                        g1.spec_children(x)
                    },
                forall|x: NodeId|
                    x < n ==> #[trigger] self.spec_dirty(x) == (g1.spec_dirty(x) || list@.subrange(
                        0,
                        k as int,
                    ).contains(x)),
            decreases list.len() - k,
        {
            let x = list[k];
            proof {
                g0.lemma_nodes(id, x);
                assert(list@.contains(x));
                g0.lemma_subtree_rank(id, x);
            }
            let ghost before = *self;
            {
                let m = self.mobject_slot(x);
                m.visible = false;
                m.path = None;
            }
            self.children.set(x, Vec::new());
            self.dirty.set(x, true);
            proof {
                let p = list@.subrange(0, k + 1);
                assert(p =~= list@.subrange(0, k as int).push(x));
                assert forall|y: NodeId| y < n implies p.contains(y) == (list@.subrange(
                    0,
                    k as int,
                ).contains(y) || y == x) by {
                    if p.contains(y) && y != x {
                        let i = choose|i: int| 0 <= i < p.len() && p[i] == y;
                        assert(list@.subrange(0, k as int)[i] == y);
                    }
                    if y == x {
                        assert(p[k as int] == x);
                    }
                }
                assert forall|y: NodeId| y < n implies #[trigger] self.spec_mobject(y) == if p.contains(y) {
                    tombstoned(g1.spec_mobject(y))
                } else {
                    g1.spec_mobject(y)
                } by {
                    if y != x {
                        assert(self.spec_mobject(y) == before.spec_mobject(y));
                    }
                }
                assert forall|y: NodeId| y < n implies #[trigger] self.spec_children(y) == if p.contains(y) {
                    Seq::<NodeId>::empty()
                } else {
                    g1.spec_children(y)
                } by {
                    if y != x {
                        assert(self.children@[y as int] == before.children@[y as int]);
                        assert(self.spec_children(y) == before.spec_children(y));
                    } else {
                        assert(p.contains(x));
                        assert(self.spec_children(x) =~= Seq::<NodeId>::empty());
                    }
                }
                assert forall|y: NodeId| y < n implies #[trigger] self.spec_dirty(y) == (
                g1.spec_dirty(y) || p.contains(y)) by {
                    if y != x {
                        assert(self.dirty@[y as int] == before.dirty@[y as int]);
                        assert(self.spec_dirty(y) == before.spec_dirty(y));
                    } else {
                        assert(p.contains(x));
                    }
                }
                assert forall|i: int, j: int|
                    0 <= i < self.parents@.len() && 0 <= j < self.children@[i]@.len() implies {
                    let c = #[trigger] self.children@[i]@[j];
                    c < self.parents@.len() && self.parents@[c as int] == Some(i as NodeId)
                } by {
                    assert(i != x);
                    assert(self.children@[i] == before.children@[i]);
                    before.lemma_child(i as NodeId, j);
                }
                assert forall|i: NodeId| i < self.spec_len() implies #[trigger] self.spec_parent(i)
                    == g1.spec_parent(i) && self.spec_rank(i) == g1.spec_rank(i) by {
                    assert(self.spec_parent(i) == before.spec_parent(i));
                }
            }
            k = k + 1;
        }
        proof {
            assert(list@.subrange(0, list@.len() as int) =~= list@);
            assert forall|x: NodeId| x < n implies #[trigger] list@.contains(x) == g0.in_subtree(
                id,
                x,
            ) by {
                g0.lemma_nodes(id, x);
            }
            // g1 relative to g0
            assert forall|x: NodeId| x < n implies #[trigger] g1.spec_dirty(x) == (g0.spec_dirty(
                x,
            ) || match g0.spec_parent(id) {
                Some(p) => g0.on_chain(p, x),
                None => false,
            }) by {}
            assert forall|x: NodeId| x < n implies #[trigger] g1.spec_mobject(x) == g0.spec_mobject(x) by {}
            assert forall|x: NodeId| x < n implies #[trigger] g1.spec_children(x) == if g0.spec_parent(
                id,
            ) == Some(x) {
                keep(g0.spec_children(x), equals(id))
            } else {
                g0.spec_children(x)
            } by {}
            // the new dirty set
            assert forall|x: NodeId| x < n implies #[trigger] self.spec_dirty(x) == (g0.spec_dirty(
                x,
            ) || g0.in_subtree(id, x) || g0.on_chain(id, x)) by {
                g0.lemma_chain_unfold(id, x);
                g0.lemma_subtree_unfold(id, x);
            }
            // dirty propagation
            assert forall|x: NodeId|
                x < self.spec_len() && #[trigger] self.spec_dirty(x) implies match self.spec_parent(
                x,
            ) {
                Some(q) => self.spec_dirty(q),
                None => true,
            } by {
                assert(self.spec_parent(x) == g1.spec_parent(x));
                assert(self.spec_parent(x) == g0.spec_parent(x));
                if g0.in_subtree(id, x) {
                    if x == id {
                        match g0.spec_parent(id) {
                            Some(p) => {
                                g0.lemma_chain_unfold(p, p);
                            },
                            None => {},
                        }
                    } else {
                        g0.lemma_subtree_parent(id, x);
                    }
                } else if g1.spec_dirty(x) {
                    match self.spec_parent(x) {
                        Some(q) => {
                            assert(g1.spec_dirty(q));
                        },
                        None => {},
                    }
                }
            }
            assert forall|x: NodeId| x < n implies #[trigger] self.spec_children(x) == if g0.in_subtree(
                id,
                x,
            ) {
                Seq::empty()
            } else if g0.spec_parent(id) == Some(x) {
                keep(g0.spec_children(x), equals(id))
            } else {
                g0.spec_children(x)
            } by {
                match g0.spec_parent(id) {
                    Some(p) => {
                        if x == p && g0.in_subtree(id, x) {
                            g0.lemma_parent_rank(id);
                            g0.lemma_subtree_rank(id, x);
                        }
                    },
                    None => {},
                }
            }
            assert(g1.roots@ == g0.roots@);
        }
    }

    /// Child lists after `reparent(id, new_parent)`: `id` leaves its old
    /// parent's list and is appended to the new parent's.
    pub open spec fn children_after_reparent(
        &self,
        id: NodeId,
        new_parent: Option<NodeId>,
        x: NodeId,
    ) -> Seq<NodeId> {
        let left = if self.spec_parent(id) == Some(x) {
            keep(self.spec_children(x), equals(id))
        } else {
            self.spec_children(x)
        };
        if new_parent == Some(x) {
            left.push(id)
        } else {
            left
        }
    }

    /// Roots after `reparent(id, new_parent)`: a root `id` leaves the
    /// roots; `id` becomes the last root when it gets no parent.
    pub open spec fn roots_after_reparent(&self, id: NodeId, new_parent: Option<NodeId>) -> Seq<
        NodeId,
    > {
        let left = if self.spec_parent(id) is None {
            keep(self.spec_roots(), equals(id))
        } else {
            self.spec_roots()
        };
        if new_parent is None {
            left.push(id)
        } else {
            left
        }
    }

    /// Nodes marked dirty by `reparent(id, new_parent)`: the old parent's
    /// chain, and the new parent's chain (or `id` itself when it becomes a
    /// root).
    pub open spec fn dirtied_by_reparent(&self, id: NodeId, new_parent: Option<NodeId>, x: NodeId) -> bool {
        ||| (self.spec_parent(id) matches Some(o) && self.on_chain(o, x))
        ||| (new_parent matches Some(p) && self.on_chain(p, x))
        ||| (new_parent is None && x == id)
    }

    /// No child list holds `id`.
    pub open spec fn unlisted(&self, id: NodeId) -> bool {
        forall|x: NodeId, j: int|
            x < self.spec_len() && 0 <= j < self.spec_children(x).len() ==> #[trigger] self.spec_children(
                x,
            )[j] != id
    }

    /// Move `id` (with its subtree) under `new_parent`, or make it a root.
    /// `new_parent` must not lie in the subtree being moved. Mobjects are
    /// left as they are: keeping `id`'s world transform is up to the
    /// caller, which owns the transform.
    pub fn reparent(&mut self, id: NodeId, new_parent: Option<NodeId>)
        requires
            old(self).wf(),
            id < old(self).spec_len(),
            new_parent matches Some(p) ==> p < old(self).spec_len() && !old(self).on_chain(p, id),
        ensures
            final(self).wf(),
            final(self).spec_len() == old(self).spec_len(),
            final(self).spec_parent(id) == new_parent,
            forall|x: NodeId|
                x < final(self).spec_len() && x != id ==> #[trigger] final(self).spec_parent(x)
                    == old(self).spec_parent(x),
            forall|x: NodeId|
                x < final(self).spec_len() ==> #[trigger] final(self).spec_children(x) == old(
                    self,
                ).children_after_reparent(id, new_parent, x),
            final(self).spec_roots() == old(self).roots_after_reparent(id, new_parent),
            forall|x: NodeId|
                x < final(self).spec_len() ==> #[trigger] final(self).spec_mobject(x) == old(
                    self,
                ).spec_mobject(x),
            forall|x: NodeId|
                x < final(self).spec_len() ==> #[trigger] final(self).spec_dirty(x) == (old(
                    self,
                ).spec_dirty(x) || old(self).dirtied_by_reparent(id, new_parent, x)),
    {
        let ghost g0 = *self;
        self.detach(id);
        let ghost g1 = *self;
        proof {
            assert forall|x: NodeId| x < g0.spec_len() implies #[trigger] g1.spec_children(x)
                == if g0.spec_parent(id) == Some(x) {
                keep(g0.spec_children(x), equals(id))
            } else {
                g0.spec_children(x)
            } by {}
            assert forall|x: NodeId| x < g0.spec_len() implies #[trigger] g1.spec_dirty(x) == (
            g0.spec_dirty(x) || (g0.spec_parent(id) matches Some(o) && g0.on_chain(o, x))) by {}
            assert forall|x: NodeId| x < g0.spec_len() implies #[trigger] g1.spec_mobject(x)
                == g0.spec_mobject(x) by {}
            assert forall|x: NodeId| x < g0.spec_len() implies #[trigger] g1.spec_parent(x)
                == g0.spec_parent(x) by {}
        }
        match new_parent {
            Some(p) => {
                proof {
                    assert forall|x: NodeId| x < g0.spec_len() implies g1.on_chain(p, x)
                        == g0.on_chain(p, x) by {
                        g1.lemma_chain_same_links(&g0, p, x);
                    }
                    g1.lemma_chain_same_links(&g0, p, id);
                }
                self.attach_under(id, p);
                proof {
                    assert(self.spec_len() == g1.spec_len());
                    assert(g1.spec_len() == g0.spec_len());
                    assert(self.spec_roots() == g1.spec_roots());
                    assert forall|x: NodeId| x < g0.spec_len() implies #[trigger] self.spec_children(
                        x,
                    ) == g0.children_after_reparent(id, new_parent, x) by {
                        assert(self.spec_children(x) == if x == p {
                            g1.spec_children(x).push(id)
                        } else {
                            g1.spec_children(x)
                        });
                        assert(g1.spec_children(x) == if g0.spec_parent(id) == Some(x) {
                            keep(g0.spec_children(x), equals(id))
                        } else {
                            g0.spec_children(x)
                        });
                    }
                    assert forall|x: NodeId| x < g0.spec_len() implies #[trigger] self.spec_dirty(x)
                        == (g0.spec_dirty(x) || g0.dirtied_by_reparent(id, new_parent, x)) by {
                        assert(g1.spec_dirty(x) == (g0.spec_dirty(x) || (g0.spec_parent(id) matches Some(
                            o,
                        ) && g0.on_chain(o, x))));
                        assert(g1.on_chain(p, x) == g0.on_chain(p, x));
                    }
                    assert forall|x: NodeId| x < g0.spec_len() implies #[trigger] self.spec_mobject(x)
                        == g0.spec_mobject(x) by {
                        assert(g1.spec_mobject(x) == g0.spec_mobject(x));
                    }
                    assert forall|x: NodeId| x < g0.spec_len() && x != id implies #[trigger] self.spec_parent(
                        x,
                    ) == g0.spec_parent(x) by {
                        assert(g1.spec_parent(x) == g0.spec_parent(x));
                    }
                }
            },
            None => {
                self.attach_as_root(id);
                proof {
                    assert forall|x: NodeId| x < g0.spec_len() implies #[trigger] self.spec_children(
                        x,
                    ) == g0.children_after_reparent(id, new_parent, x) by {
                        assert(g1.spec_children(x) == if g0.spec_parent(id) == Some(x) {
                            keep(g0.spec_children(x), equals(id))
                        } else {
                            g0.spec_children(x)
                        });
                    }
                    assert forall|x: NodeId| x < g0.spec_len() implies #[trigger] self.spec_dirty(x)
                        == (g0.spec_dirty(x) || g0.dirtied_by_reparent(id, new_parent, x)) by {
                        assert(g1.spec_dirty(x) == (g0.spec_dirty(x) || (g0.spec_parent(id) matches Some(
                            o,
                        ) && g0.on_chain(o, x))));
                    }
                    assert forall|x: NodeId| x < g0.spec_len() implies #[trigger] self.spec_mobject(x)
                        == g0.spec_mobject(x) by {
                        assert(g1.spec_mobject(x) == g0.spec_mobject(x));
                    }
                    assert forall|x: NodeId| x < g0.spec_len() && x != id implies #[trigger] self.spec_parent(
                        x,
                    ) == g0.spec_parent(x) by {
                        assert(g1.spec_parent(x) == g0.spec_parent(x));
                    }
                }
            },
        }
    }

    // ----- grouping -------------------------------------------------------------
    // While `group_nodes(ids, _)` runs on this graph, the new group is node
    // `g == spec_len()` and the first `k` of `ids` have been moved under it
    // one by one, as by `reparent`. These functions give the state after
    // those `k` moves.

    /// Parent of `y` after the first `k` moves.
    pub open spec fn moved_parent(&self, ids: Seq<NodeId>, k: int, y: NodeId) -> Option<NodeId> {
        let g = self.spec_len() as NodeId;
        if y == g {
            None
        } else if ids.subrange(0, k).contains(y) {
            Some(g)
        } else {
            self.spec_parent(y)
        }
    }

    /// `x` is `i` or an ancestor of `i` after the first `k` moves.
    pub open spec fn on_moved_chain(&self, ids: Seq<NodeId>, k: int, i: NodeId, x: NodeId) -> bool
        decreases (if i == self.spec_len() {
            0
        } else {
            self.spec_rank(i) + 1
        }),
        when self.wf_structure() && i <= self.spec_len() && self.spec_len() < usize::MAX && 0 <= k
            <= ids.len()
    {
        x == i || match self.moved_parent(ids, k, i) {
            Some(q) => {
                proof {
                    if i < self.spec_len() && q != self.spec_len() {
                        self.lemma_parent_rank(i);
                    }
                }
                self.on_moved_chain(ids, k, q, x)
            },
            None => false,
        }
    }

    /// Child list of `x` after the first `k` moves.
    pub open spec fn moved_children(&self, ids: Seq<NodeId>, k: int, x: NodeId) -> Seq<NodeId>
        decreases k,
    {
        let g = self.spec_len() as NodeId;
        if k <= 0 {
            if x == g {
                Seq::empty()
            } else {
                self.spec_children(x)
            }
        } else {
            let prev = self.moved_children(ids, k - 1, x);
            let id = ids[k - 1];
            if id == g {
                prev
            } else {
                let left = if self.moved_parent(ids, k - 1, id) == Some(x) {
                    keep(prev, equals(id))
                } else {
                    prev
                };
                if x == g {
                    left.push(id)
                } else {
                    left
                }
            }
        }
    }

    /// Roots after the first `k` moves (the group is appended first).
    pub open spec fn moved_roots(&self, ids: Seq<NodeId>, k: int) -> Seq<NodeId>
        decreases k,
    {
        let g = self.spec_len() as NodeId;
        if k <= 0 {
            self.spec_roots().push(g)
        } else {
            let prev = self.moved_roots(ids, k - 1);
            let id = ids[k - 1];
            if id != g && self.moved_parent(ids, k - 1, id) is None {
                keep(prev, equals(id))
            } else {
                prev
            }
        }
    }

    /// Dirty flag of `x` after the first `k` moves: the group starts
    /// dirty, and each move marks the moved node's parent chain at that
    /// moment.
    pub open spec fn moved_dirty(&self, ids: Seq<NodeId>, k: int, x: NodeId) -> bool
        decreases k,
    {
        let g = self.spec_len() as NodeId;
        if k <= 0 {
            x == g || (x < g && self.spec_dirty(x))
        } else {
            let id = ids[k - 1];
            self.moved_dirty(ids, k - 1, x) || (id != g && (x == g || (self.moved_parent(
                ids,
                k - 1,
                id,
            ) matches Some(o) && self.on_moved_chain(ids, k - 1, o, x))))
        }
    }

    /// A graph whose parent links are those after the first `k` moves has
    /// the chains `on_moved_chain` describes.
    pub proof fn lemma_moved_chain(&self, cur: &Self, ids: Seq<NodeId>, k: int, i: NodeId, x: NodeId)
        requires
            self.wf_structure(),
            cur.wf_structure(),
            cur.spec_len() == self.spec_len() + 1,
            self.spec_len() < usize::MAX,
            0 <= k <= ids.len(),
            i <= self.spec_len(),
            forall|y: NodeId| y <= self.spec_len() ==> #[trigger] cur.spec_parent(y) == self.moved_parent(ids, k, y),
        ensures
            cur.on_chain(i, x) == self.on_moved_chain(ids, k, i, x),
        decreases (if i == self.spec_len() {
            0
        } else {
            self.spec_rank(i) + 1
        }),
    {
        cur.lemma_chain_unfold(i, x);
        assert(cur.spec_parent(i) == self.moved_parent(ids, k, i));
        match self.moved_parent(ids, k, i) {
            Some(q) => {
                if i < self.spec_len() && q != self.spec_len() {
                    self.lemma_parent_rank(i);
                }
                self.lemma_moved_chain(cur, ids, k, q, x);
            },
            None => {},
        }
    }

    /// Wrap `ids` in a new group node (a root carrying `geometry`, with an
    /// empty path), moving each listed node under it in turn as by
    /// `reparent`; an id equal to the new group's is skipped. Returns the
    /// group. Each node's world transform is kept by the caller, which owns
    /// the transforms.
    pub fn group_nodes(&mut self, ids: &[NodeId], geometry: G) -> (g: NodeId)
        requires
            old(self).wf(),
            old(self).spec_len() < usize::MAX,
            forall|j: int| 0 <= j < ids@.len() ==> #[trigger] ids@[j] <= old(self).spec_len(),
        ensures
            final(self).wf(),
            g == old(self).spec_len(),
            final(self).spec_len() == old(self).spec_len() + 1,
            final(self).spec_mobject(g) == (Mobject::<P, G> {
                name: None,
                path: None,
                fill: None,
                stroke: Some(crate::palette::rgb(255, 255, 255)),
                visible: true,
                z_index: 0,
                geometry,
            }),
            forall|x: NodeId|
                x < old(self).spec_len() ==> #[trigger] final(self).spec_mobject(x) == old(
                    self,
                ).spec_mobject(x),
            forall|x: NodeId|
                x <= old(self).spec_len() ==> #[trigger] final(self).spec_parent(x) == old(
                    self,
                ).moved_parent(ids@, ids@.len() as int, x),
            forall|x: NodeId|
                x <= old(self).spec_len() ==> #[trigger] final(self).spec_children(x) == old(
                    self,
                ).moved_children(ids@, ids@.len() as int, x),
            final(self).spec_roots() == old(self).moved_roots(ids@, ids@.len() as int),
            forall|x: NodeId|
                x <= old(self).spec_len() ==> #[trigger] final(self).spec_dirty(x) == old(
                    self,
                ).moved_dirty(ids@, ids@.len() as int, x),
    {
        let ghost g0 = *self;
        let g = self.add(Mobject::new(None, geometry));
        let ghost ga = *self;
        proof {
            assert forall|y: NodeId| y <= g0.spec_len() implies #[trigger] self.spec_parent(y)
                == g0.moved_parent(ids@, 0, y) by {
                assert(ids@.subrange(0, 0) =~= Seq::<NodeId>::empty());
            }
            assert forall|x: NodeId| x <= g0.spec_len() implies #[trigger] self.spec_children(x)
                == g0.moved_children(ids@, 0, x) by {}
            assert forall|x: NodeId| x <= g0.spec_len() implies #[trigger] self.spec_dirty(x)
                == g0.moved_dirty(ids@, 0, x) by {}
        }
        let mut k: usize = 0;
        while k < ids.len()
            invariant
                g0.wf(),
                g == g0.spec_len(),
                g0.spec_len() < usize::MAX,
                forall|j: int| 0 <= j < ids@.len() ==> #[trigger] ids@[j] <= g0.spec_len(),
                k <= ids@.len(),
                self.wf(),
                self.spec_len() == g0.spec_len() + 1,
                self.spec_mobject(g) == ga.spec_mobject(g),
                forall|x: NodeId|
                    x < g0.spec_len() ==> #[trigger] self.spec_mobject(x) == g0.spec_mobject(x),
                forall|y: NodeId|
                    y <= g0.spec_len() ==> #[trigger] self.spec_parent(y) == g0.moved_parent(
                        ids@,
                        k as int,
                        y,
                    ),
                forall|x: NodeId|
                    x <= g0.spec_len() ==> #[trigger] self.spec_children(x) == g0.moved_children(
                        ids@,
                        k as int,
                        x,
                    ),
                self.spec_roots() == g0.moved_roots(ids@, k as int),
                forall|x: NodeId|
                    x <= g0.spec_len() ==> #[trigger] self.spec_dirty(x) == g0.moved_dirty(
                        ids@,
                        k as int,
                        x,
                    ),
            decreases ids.len() - k,
        {
            let id = ids[k];
            let ghost before = *self;
            proof {
                let pre = ids@.subrange(0, k as int);
                let pre1 = ids@.subrange(0, k + 1);
                assert(pre1 =~= pre.push(id));
                assert forall|y: NodeId| y <= g0.spec_len() implies #[trigger] pre1.contains(y)
                    == (pre.contains(y) || y == id) by {
                    if pre1.contains(y) && y != id {
                        let j = choose|j: int| 0 <= j < pre1.len() && pre1[j] == y;
                        assert(pre[j] == y);
                    }
                    if y == id {
                        assert(pre1[k as int] == id);
                    }
                }
            }
            if id != g {
                proof {
                    assert(self.spec_parent(g) == g0.moved_parent(ids@, k as int, g));
                    self.lemma_chain_unfold(g, id);
                }
                self.reparent(id, Some(g));
                proof {
                    assert forall|y: NodeId| y <= g0.spec_len() implies #[trigger] self.spec_parent(y)
                        == g0.moved_parent(ids@, k + 1, y) by {
                        if y != id {
                            assert(self.spec_parent(y) == before.spec_parent(y));
                        }
                    }
                    assert forall|x: NodeId| x <= g0.spec_len() implies #[trigger] self.spec_children(
                        x,
                    ) == g0.moved_children(ids@, k + 1, x) by {
                        assert(before.spec_parent(id) == g0.moved_parent(ids@, k as int, id));
                        assert(before.spec_children(x) == g0.moved_children(ids@, k as int, x));
                    }
                    assert forall|x: NodeId| x <= g0.spec_len() implies #[trigger] self.spec_dirty(x)
                        == g0.moved_dirty(ids@, k + 1, x) by {
                        assert(before.spec_parent(id) == g0.moved_parent(ids@, k as int, id));
                        assert(before.spec_dirty(x) == g0.moved_dirty(ids@, k as int, x));
                        before.lemma_chain_unfold(g, x);
                        assert(before.spec_parent(g) == g0.moved_parent(ids@, k as int, g));
                        match before.spec_parent(id) {
                            Some(o) => {
                                g0.lemma_moved_chain(&before, ids@, k as int, o, x);
                            },
                            None => {},
                        }
                    }
                    assert forall|x: NodeId| x < g0.spec_len() implies #[trigger] self.spec_mobject(x)
                        == g0.spec_mobject(x) by {
                        assert(self.spec_mobject(x) == before.spec_mobject(x));
                    }
                    assert(self.spec_mobject(g) == before.spec_mobject(g));
                    assert(before.spec_parent(id) == g0.moved_parent(ids@, k as int, id));
                }
            } else {
                proof {
                    assert forall|y: NodeId| y <= g0.spec_len() implies #[trigger] self.spec_parent(y)
                        == g0.moved_parent(ids@, k + 1, y) by {}
                    assert forall|x: NodeId| x <= g0.spec_len() implies #[trigger] self.spec_children(
                        x,
                    ) == g0.moved_children(ids@, k + 1, x) by {}
                    assert forall|x: NodeId| x <= g0.spec_len() implies #[trigger] self.spec_dirty(x)
                        == g0.moved_dirty(ids@, k + 1, x) by {}
                }
            }
            k = k + 1;
        }
        proof {
            assert(ids@.subrange(0, ids@.len() as int) =~= ids@);
        }
        g
    }

    /// Take `id` out of its parent's child list (marking the parent's
    /// chain dirty), or out of the roots.
    fn detach(&mut self, id: NodeId)
        requires
            old(self).wf(),
            id < old(self).spec_len(),
        ensures
            final(self).wf(),
            final(self).same_links(&*old(self)),
            final(self).unlisted(id),
            forall|x: NodeId|
                x < final(self).spec_len() ==> #[trigger] final(self).spec_children(x) == if old(
                    self,
                ).spec_parent(id) == Some(x) {
                    keep(old(self).spec_children(x), equals(id))
                } else {
                    old(self).spec_children(x)
                },
            final(self).spec_roots() == if old(self).spec_parent(id) is None {
                keep(old(self).spec_roots(), equals(id))
            } else {
                old(self).spec_roots()
            },
            forall|x: NodeId|
                x < final(self).spec_len() ==> #[trigger] final(self).spec_mobject(x) == old(
                    self,
                ).spec_mobject(x),
            forall|x: NodeId|
                x < final(self).spec_len() ==> #[trigger] final(self).spec_dirty(x) == (old(
                    self,
                ).spec_dirty(x) || (old(self).spec_parent(id) matches Some(o) && old(
                    self,
                ).on_chain(o, x))),
    {
        let ghost g0 = *self;
        proof {
            g0.lemma_parent_rank(id);
            assert(g0.parents.len() == g0.parents@.len());
        }
        match self.parents[id] {
            Some(o) => {
                let kept = retain_ne(&self.children[o], id);
                let ghost before = *self;
                self.children.set(o, kept);
                proof {
                    lemma_keep(before.spec_children(o), equals(id));
                    assert forall|i: int, j: int|
                        0 <= i < self.parents@.len() && 0 <= j < self.children@[i]@.len() implies {
                        let c = #[trigger] self.children@[i]@[j];
                        c < self.parents@.len() && self.parents@[c as int] == Some(i as NodeId)
                    } by {
                        let x = i as NodeId;
                        assert(x as int == i);
                        if x == o {
                            let c = self.children@[i]@[j];
                            assert(keep(before.spec_children(o), equals(id))[j] == c);
                            assert(before.spec_children(o).contains(c));
                            let k = choose|k: int|
                                0 <= k < before.spec_children(o).len() && before.spec_children(
                                    o,
                                )[k] == c;
                            before.lemma_child(o, k);
                        } else {
                            assert(self.children@[i] == before.children@[i]);
                            assert(j < before.spec_children(x).len());
                            before.lemma_child(x, j);
                        }
                    }
                    assert forall|x: NodeId|
                        x < self.spec_len() && #[trigger] self.spec_dirty(x) implies match self.spec_parent(
                        x,
                    ) {
                        Some(q) => self.spec_dirty(q),
                        None => true,
                    } by {
                        assert(before.spec_dirty(x));
                    }
                }
                let ghost mid = *self;
                self.mark_dirty(o);
                proof {
                    assert forall|x: NodeId| x < g0.spec_len() implies mid.on_chain(o, x)
                        == g0.on_chain(o, x) by {
                        mid.lemma_chain_same_links(&g0, o, x);
                    }
                    assert forall|x: NodeId, j: int|
                        x < self.spec_len() && 0 <= j < self.spec_children(x).len() implies #[trigger] self.spec_children(
                        x,
                    )[j] != id by {
                        assert(self.spec_children(x) == mid.spec_children(x));
                        if x == o {
                            assert(mid.spec_children(x) == keep(
                                g0.spec_children(o),
                                equals(id),
                            ));
                            assert(mid.spec_children(x)[j] != id);
                        } else {
                            assert(mid.spec_children(x) == g0.spec_children(x));
                            g0.lemma_child(x, j);
                        }
                    }
                }
            },
            None => {
                let kept = retain_ne(&self.roots, id);
                proof {
                    lemma_keep(self.roots@, equals(id));
                }
                self.roots = kept;
                proof {
                    assert forall|j: int| 0 <= j < self.roots@.len() implies #[trigger] self.roots@[j]
                        < self.parents@.len() by {
                        assert(g0.roots@.contains(self.roots@[j]));
                    }
                    assert forall|i: int, j: int|
                        0 <= i < self.parents@.len() && 0 <= j < self.children@[i]@.len() implies {
                        let c = #[trigger] self.children@[i]@[j];
                        c < self.parents@.len() && self.parents@[c as int] == Some(i as NodeId)
                    } by {
                        let x = i as NodeId;
                        assert(x as int == i);
                        assert(j < g0.spec_children(x).len());
                        g0.lemma_child(x, j);
                    }
                    assert(self.wf_structure());
                    assert forall|x: NodeId|
                        x < self.spec_len() && #[trigger] self.spec_dirty(x) implies match self.spec_parent(
                        x,
                    ) {
                        Some(q) => self.spec_dirty(q),
                        None => true,
                    } by {
                        assert(g0.spec_dirty(x));
                    }
                    assert forall|x: NodeId, j: int|
                        x < self.spec_len() && 0 <= j < self.spec_children(x).len() implies #[trigger] self.spec_children(
                        x,
                    )[j] != id by {
                        g0.lemma_child(x, j);
                    }
                }
            },
        }
    }

    /// Link an unlisted `id` as the last child of `p` (marking `p`'s chain
    /// dirty). The moved subtree's ghost ranks shift up to stay above `p`.
    fn attach_under(&mut self, id: NodeId, p: NodeId)
        requires
            old(self).wf(),
            id < old(self).spec_len(),
            p < old(self).spec_len(),
            !old(self).on_chain(p, id),
            old(self).unlisted(id),
        ensures
            final(self).wf(),
            final(self).spec_len() == old(self).spec_len(),
            final(self).spec_parent(id) == Some(p),
            forall|x: NodeId|
                x < final(self).spec_len() && x != id ==> #[trigger] final(self).spec_parent(x)
                    == old(self).spec_parent(x),
            forall|x: NodeId|
                x < final(self).spec_len() ==> #[trigger] final(self).spec_children(x) == if x == p {
                    old(self).spec_children(x).push(id)
                } else {
                    old(self).spec_children(x)
                },
            final(self).spec_roots() == old(self).spec_roots(),
            forall|x: NodeId|
                x < final(self).spec_len() ==> #[trigger] final(self).spec_mobject(x) == old(
                    self,
                ).spec_mobject(x),
            forall|x: NodeId|
                x < final(self).spec_len() ==> #[trigger] final(self).spec_dirty(x) == (old(
                    self,
                ).spec_dirty(x) || old(self).on_chain(p, x)),
    {
        let ghost g0 = *self;
        self.mark_dirty(p);
        let ghost g2 = *self;
        proof {
            g0.lemma_chain_unfold(p, p);
            assert(g2.spec_dirty(p));
            assert(g0.parents.len() == g0.parents@.len());
        }
        self.parents.set(id, Some(p));
        self.children[p].push(id);
        proof {
            let ghost delta: nat = if g0.spec_rank(p) + 1 > g0.spec_rank(id) {
                (g0.spec_rank(p) + 1 - g0.spec_rank(id)) as nat
            } else {
                0
            };
            self.rank@ = Seq::new(
                g0.spec_len(),
                |x: int|
                    if g0.on_chain(x as NodeId, id) {
                        g0.rank@[x] + delta
                    } else {
                        g0.rank@[x]
                    },
            );
            self.bound@ = g0.bound@ + delta;
            assert forall|i: int, j: int|
                0 <= i < g2.parents@.len() && 0 <= j < g2.children@[i]@.len() implies #[trigger] g2.children@[i]@[j]
                    != id by {
                let x = i as NodeId;
                assert(x as int == i);
                assert(g2.spec_children(x) == g0.spec_children(x));
                assert(g0.spec_children(x)[j] != id);
            }
            self.lemma_reparent_wf(&g0, &g2, id, p, delta);
            assert forall|x: NodeId| x < g0.spec_len() implies #[trigger] self.spec_children(x)
                == if x == p {
                g0.spec_children(x).push(id)
            } else {
                g0.spec_children(x)
            } by {
                assert(g2.spec_children(x) == g0.spec_children(x));
                if x == p {
                    assert(self.children@[x as int]@ == g2.children@[x as int]@.push(id));
                } else {
                    assert(self.children@[x as int] == g2.children@[x as int]);
                }
            }
            assert forall|x: NodeId| x < g0.spec_len() implies #[trigger] self.spec_dirty(x) == (
            g0.spec_dirty(x) || g0.on_chain(p, x)) by {
                assert(self.spec_dirty(x) == g2.spec_dirty(x));
            }
            assert forall|x: NodeId| x < g0.spec_len() && x != id implies #[trigger] self.spec_parent(
                x,
            ) == g0.spec_parent(x) by {
                assert(self.spec_parent(x) == g2.spec_parent(x));
            }
            assert forall|x: NodeId| x < g0.spec_len() implies #[trigger] self.spec_mobject(x)
                == g0.spec_mobject(x) by {
                assert(self.spec_mobject(x) == g2.spec_mobject(x));
            }
            assert(self.spec_roots() == g2.spec_roots());
        }
    }

    /// Make an unlisted `id` a parentless root (appended to the roots) and
    /// mark it dirty.
    fn attach_as_root(&mut self, id: NodeId)
        requires
            old(self).wf(),
            id < old(self).spec_len(),
            old(self).unlisted(id),
        ensures
            final(self).wf(),
            final(self).spec_len() == old(self).spec_len(),
            final(self).spec_parent(id) is None,
            forall|x: NodeId|
                x < final(self).spec_len() && x != id ==> #[trigger] final(self).spec_parent(x)
                    == old(self).spec_parent(x),
            forall|x: NodeId|
                x < final(self).spec_len() ==> #[trigger] final(self).spec_children(x) == old(
                    self,
                ).spec_children(x),
            final(self).spec_roots() == old(self).spec_roots().push(id),
            forall|x: NodeId|
                x < final(self).spec_len() ==> #[trigger] final(self).spec_mobject(x) == old(
                    self,
                ).spec_mobject(x),
            forall|x: NodeId|
                x < final(self).spec_len() ==> #[trigger] final(self).spec_dirty(x) == (old(
                    self,
                ).spec_dirty(x) || x == id),
    {
        let ghost g1 = *self;
        proof {
            assert(g1.parents.len() == g1.parents@.len());
        }
        self.parents.set(id, None);
        self.roots.push(id);
        let ghost g2 = *self;
        proof {
            assert forall|i: int, j: int|
                0 <= i < self.parents@.len() && 0 <= j < self.children@[i]@.len() implies {
                let c = #[trigger] self.children@[i]@[j];
                c < self.parents@.len() && self.parents@[c as int] == Some(i as NodeId)
            } by {
                let x = i as NodeId;
                assert(x as int == i);
                assert(self.children@[i] == g1.children@[i]);
                assert(j < g1.spec_children(x).len());
                g1.lemma_child(x, j);
                assert(g1.spec_children(x)[j] != id);
            }
            assert forall|i: int| 0 <= i < self.parents@.len() implies match #[trigger] self.parents@[i] {
                Some(q) => q < self.parents@.len() && self.rank@[q as int] < self.rank@[i],
                None => true,
            } by {
                let x = i as NodeId;
                assert(x as int == i);
                if x != id {
                    assert(self.parents@[i] == g1.parents@[i]);
                    g1.lemma_parent_rank(x);
                }
            }
            assert forall|i: int| 0 <= i < self.parents@.len() implies #[trigger] self.rank@[i]
                < self.bound@ by {
                let x = i as NodeId;
                assert(x as int == i);
                g1.lemma_parent_rank(x);
            }
            assert forall|j: int| 0 <= j < self.roots@.len() implies #[trigger] self.roots@[j]
                < self.parents@.len() by {
                if j < g1.roots@.len() {
                    assert(self.roots@[j] == g1.roots@[j]);
                }
            }
            assert(self.wf_structure());
            assert forall|x: NodeId|
                x < self.spec_len() && #[trigger] self.spec_dirty(x) implies match self.spec_parent(x) {
                Some(q) => self.spec_dirty(q),
                None => true,
            } by {
                if x != id {
                    assert(self.spec_parent(x) == g1.spec_parent(x));
                    assert(g1.spec_dirty(x));
                }
            }
        }
        self.mark_dirty(id);
        proof {
            assert forall|x: NodeId| x < g1.spec_len() implies g2.on_chain(id, x) == (x == id) by {
                g2.lemma_chain_unfold(id, x);
            }
            assert forall|x: NodeId| x < g1.spec_len() implies #[trigger] self.spec_children(x)
                == g1.spec_children(x) by {
                assert(self.spec_children(x) == g2.spec_children(x));
                assert(g2.children@[x as int] == g1.children@[x as int]);
            }
            assert forall|x: NodeId| x < g1.spec_len() && x != id implies #[trigger] self.spec_parent(
                x,
            ) == g1.spec_parent(x) by {
                assert(self.spec_parent(x) == g2.spec_parent(x));
            }
            assert forall|x: NodeId| x < g1.spec_len() implies #[trigger] self.spec_mobject(x)
                == g1.spec_mobject(x) by {
                assert(self.spec_mobject(x) == g2.spec_mobject(x));
            }
            assert forall|x: NodeId| x < g1.spec_len() implies #[trigger] self.spec_dirty(x) == (
            g1.spec_dirty(x) || x == id) by {
                assert(g2.spec_dirty(x) == g1.spec_dirty(x));
            }
        }
    }

    /// Well-formedness after linking `id` under `p` with the moved subtree's
    /// ranks shifted up by `delta`.
    proof fn lemma_reparent_wf(&self, g0: &Self, g2: &Self, id: NodeId, p: NodeId, delta: nat)
        requires
            g0.wf(),
            g2.wf(),
            id < g0.spec_len(),
            p < g0.spec_len(),
            !g0.on_chain(p, id),
            g2.same_structure(g0) || true,
            g2.spec_len() == g0.spec_len(),
            forall|x: NodeId| x < g0.spec_len() ==> #[trigger] g2.spec_parent(x) == g0.spec_parent(x),
            forall|x: NodeId| x < g0.spec_len() ==> #[trigger] g2.spec_rank(x) == g0.spec_rank(x),
            g2.spec_bound() == g0.spec_bound(),
            g2.spec_dirty(p),
            forall|i: int, j: int|
                0 <= i < g2.parents@.len() && 0 <= j < g2.children@[i]@.len() ==> #[trigger] g2.children@[i]@[j]
                    != id,
            g0.spec_rank(p) < g0.spec_rank(id) + delta,
            self.mobjects@ == g2.mobjects@,
            self.dirty@ == g2.dirty@,
            self.roots@ == g2.roots@,
            self.parents@ == g2.parents@.update(id as int, Some(p)),
            self.children@.len() == g2.children@.len(),
            forall|i: int|
                0 <= i < g2.children@.len() && i != p ==> #[trigger] self.children@[i] == g2.children@[i],
            self.children@[p as int]@ == g2.children@[p as int]@.push(id),
            self.rank@ == Seq::new(
                g0.spec_len(),
                |x: int|
                    if g0.on_chain(x as NodeId, id) {
                        g0.rank@[x] + delta
                    } else {
                        g0.rank@[x]
                    },
            ),
            self.bound@ == g0.bound@ + delta,
        ensures
            self.wf(),
    {
        assert(g0.parents.len() == g0.parents@.len());
        assert forall|i: int| 0 <= i < self.parents@.len() implies #[trigger] self.rank@[i]
            < self.bound@ by {
            let x = i as NodeId;
            assert(x as int == i);
            g0.lemma_parent_rank(x);
        }
        assert forall|i: int| 0 <= i < self.parents@.len() implies match #[trigger] self.parents@[i] {
            Some(q) => q < self.parents@.len() && self.rank@[q as int] < self.rank@[i],
            None => true,
        } by {
            let x = i as NodeId;
            assert(x as int == i);
            g0.lemma_parent_rank(x);
            g0.lemma_parent_rank(p);
            g0.lemma_chain_unfold(p, id);
            if x == id {
                g0.lemma_chain_unfold(id, id);
            } else {
                assert(g2.spec_parent(x) == g0.spec_parent(x));
                assert(self.parents@[i] == g2.parents@[i]);
                assert(self.parents@[i] == g0.parents@[i]);
                g0.lemma_chain_unfold(x, id);
                match g0.spec_parent(x) {
                    Some(q) => {
                        g0.lemma_chain_unfold(q, id);
                    },
                    None => {},
                }
            }
        }
        assert forall|i: int, j: int|
            0 <= i < self.parents@.len() && 0 <= j < self.children@[i]@.len() implies {
            let c = #[trigger] self.children@[i]@[j];
            c < self.parents@.len() && self.parents@[c as int] == Some(i as NodeId)
        } by {
            if i == p && j == g2.children@[i]@.len() {
            } else {
                assert(self.children@[i]@[j] == g2.children@[i]@[j]);
                g2.lemma_child(i as NodeId, j);
            }
        }
        assert forall|x: NodeId|
            x < self.spec_len() && #[trigger] self.spec_dirty(x) implies match self.spec_parent(x) {
            Some(q) => self.spec_dirty(q),
            None => true,
        } by {
            assert(g2.spec_dirty(x));
            if x != id {
                assert(self.spec_parent(x) == g2.spec_parent(x));
            }
        }
    }

    /// Nodes reachable from `rs`, each root's subtree in turn (depth-first
    /// preorder).
    pub open spec fn forest(&self, rs: Seq<NodeId>) -> Seq<NodeId>
        decreases rs.len(),
    {
        if rs.len() == 0 {
            Seq::empty()
        } else {
            self.forest(rs.drop_last()) + self.nodes(rs.last())
        }
    }

    /// The z-index a node paints at.
    pub open spec fn z_of(&self, x: NodeId) -> i32 {
        self.spec_mobject(x).z_index
    }

    /// Number of leading entries of `s` with z-index at most `z`.
    pub open spec fn z_prefix(&self, s: Seq<NodeId>, z: i32) -> nat
        decreases s.len(),
    {
        if s.len() == 0 || self.z_of(s[0]) > z {
            0
        } else {
            1 + self.z_prefix(s.drop_first(), z)
        }
    }

    /// `s` stably sorted by z-index (insertion sort: each node goes after
    /// every earlier node with a z-index no higher than its own).
    pub open spec fn by_z(&self, s: Seq<NodeId>) -> Seq<NodeId>
        decreases s.len(),
    {
        if s.len() == 0 {
            Seq::empty()
        } else {
            let sorted = self.by_z(s.drop_last());
            sorted.insert(self.z_prefix(sorted, self.z_of(s.last())) as int, s.last())
        }
    }

    /// Paint order: every node reachable from the roots in depth-first
    /// preorder, then stably sorted by z-index so higher values paint on
    /// top. (Each node's world transform and accumulated opacity, which the
    /// renderer pairs with this order, are real-valued and computed by the
    /// caller.)
    pub fn paint_order(&self) -> (out: Vec<NodeId>)
        requires
            self.wf_structure(),
        ensures
            out@ == self.by_z(self.forest(self.spec_roots())),
    {
        let mut pre: Vec<NodeId> = Vec::new();
        let mut r: usize = 0;
        while r < self.roots.len()
            invariant
                self.wf_structure(),
                r <= self.roots@.len(),
                pre@ == self.forest(self.roots@.subrange(0, r as int)),
                forall|j: int| 0 <= j < pre@.len() ==> #[trigger] pre@[j] < self.spec_len(),
            decreases self.roots@.len() - r,
        {
            let root = self.roots[r];
            let ghost before = pre@;
            self.collect_nodes(root, &mut pre);
            proof {
                assert forall|j: int| 0 <= j < pre@.len() implies #[trigger] pre@[j] < self.spec_len() by {
                    if j >= before.len() {
                        let nd = self.nodes(root);
                        assert(pre@[j] == nd[j - before.len()]);
                        assert(nd.contains(pre@[j]));
                        self.lemma_nodes(root, pre@[j]);
                        self.lemma_subtree_rank(root, pre@[j]);
                    } else {
                        assert(pre@[j] == before[j]);
                    }
                }
                let s = self.roots@.subrange(0, r + 1);
                assert(s.drop_last() =~= self.roots@.subrange(0, r as int));
                assert(s.last() == root);
            }
            r = r + 1;
        }
        proof {
            assert(self.roots@.subrange(0, self.roots@.len() as int) =~= self.roots@);
        }
        let mut out: Vec<NodeId> = Vec::new();
        let mut i: usize = 0;
        while i < pre.len()
            invariant
                self.wf_structure(),
                i <= pre@.len(),
                pre@ == self.forest(self.spec_roots()),
                forall|j: int| 0 <= j < pre@.len() ==> #[trigger] pre@[j] < self.spec_len(),
                out@ == self.by_z(pre@.subrange(0, i as int)),
                forall|j: int| 0 <= j < out@.len() ==> #[trigger] out@[j] < self.spec_len(),
            decreases pre@.len() - i,
        {
            let x = pre[i];
            let z = self.mobjects[x].z_index;
            // insert after the last entry with z-index <= z
            let mut pos: usize = 0;
            proof {
                assert(out@.skip(0) =~= out@);
            }
            while pos < out.len() && self.mobjects[out[pos]].z_index <= z
                invariant
                    self.wf_structure(),
                    pos <= out@.len(),
                    forall|j: int| 0 <= j < out@.len() ==> #[trigger] out@[j] < self.spec_len(),
                    z == self.z_of(x),
                    self.z_prefix(out@, z) == pos + self.z_prefix(out@.skip(pos as int), z),
                decreases out@.len() - pos,
            {
                proof {
                    let t = out@.skip(pos as int);
                    assert(t[0] == out@[pos as int]);
                    assert(t.drop_first() =~= out@.skip(pos + 1));
                }
                pos = pos + 1;
            }
            proof {
                let t = out@.skip(pos as int);
                if pos < out@.len() {
                    assert(t[0] == out@[pos as int]);
                }
                assert(self.z_prefix(t, z) == 0);
                let s = pre@.subrange(0, i + 1);
                assert(s.drop_last() =~= pre@.subrange(0, i as int));
                assert(s.last() == x);
            }
            out.insert(pos, x);
            proof {
                assert forall|j: int| 0 <= j < out@.len() implies #[trigger] out@[j] < self.spec_len() by {
                    assert(pre@[i as int] == x);
                }
            }
            i = i + 1;
        }
        proof {
            assert(pre@.subrange(0, pre@.len() as int) =~= pre@);
        }
        out
    }

    /// Set a node's `z_index` (marks it dirty).
    pub fn set_z_index(&mut self, id: NodeId, z: i32)
        requires
            old(self).wf(),
            id < old(self).spec_len(),
        ensures
            final(self).wf(),
            final(self).same_structure(&*old(self)),
            final(self).spec_mobject(id) == (Mobject { z_index: z, ..old(self).spec_mobject(id) }),
            forall|x: NodeId|
                x < final(self).spec_len() && x != id ==> final(self).spec_mobject(x) == old(self).spec_mobject(x),
            forall|x: NodeId|
                x < final(self).spec_len() ==> (final(self).spec_dirty(x) == (old(self).spec_dirty(
                    x,
                ) || old(self).on_chain(id, x))),
    {
        let m = self.get_mut(id);
        m.z_index = z;
    }
}


/// A node strictly above `i` on its chain has a smaller rank.
proof fn lemma_chain_rank<P, G>(g: &SceneGraph<P, G>, i: NodeId, x: NodeId)
    requires
        g.wf_structure(),
        i < g.spec_len(),
        g.on_chain(i, x),
    ensures
        x < g.spec_len(),
        g.spec_rank(x) <= g.spec_rank(i),
    decreases g.spec_rank(i),
{
    g.lemma_parent_rank(i);
    if x != i {
        match g.spec_parent(i) {
            Some(p) => {
                lemma_chain_rank(g, p, x);
            },
            None => {},
        }
    }
}

/// Stepping from `i` to its parent keeps us on `id`'s chain.
proof fn lemma_chain_step<P, G>(g: &SceneGraph<P, G>, id: NodeId, i: NodeId, p: NodeId)
    requires
        g.wf_structure(),
        id < g.spec_len(),
        i < g.spec_len(),
        g.on_chain(id, i),
        g.spec_parent(i) == Some(p),
    ensures
        p < g.spec_len(),
        g.on_chain(id, p),
    decreases g.spec_rank(id),
{
    g.lemma_parent_rank(id);
    g.lemma_parent_rank(i);
    g.lemma_chain_unfold(id, i);
    g.lemma_chain_unfold(id, p);
    if id == i {
        g.lemma_chain_unfold(p, p);
    } else {
        match g.spec_parent(id) {
            Some(q) => {
                lemma_chain_step(g, q, i, p);
            },
            None => {},
        }
    }
}

/// After `clear_dirty` (every node clean), `any_dirty` is false: while the
/// camera stays where it was, the renderer reuses its last frame.
pub proof fn law_cleared_graph_is_clean<P, G>(g: &SceneGraph<P, G>)
    requires
        forall|x: NodeId| x < g.spec_len() ==> !#[trigger] g.spec_dirty(x),
    ensures
        !g.spec_any_dirty(),
        frame_action_for(g.spec_any_dirty(), false, true) == FrameAction::Reuse,
{
}

/// A mutation through `get_mut` (or `mark_dirty`) of any node leaves the
/// graph dirty, whatever was dirty before: the next frame is drawn anew.
pub proof fn law_mutation_dirties<P, G>(before: &SceneGraph<P, G>, after: &SceneGraph<P, G>, id: NodeId)
    requires
        before.wf(),
        id < before.spec_len(),
        after.spec_len() == before.spec_len(),
        forall|x: NodeId|
            x < after.spec_len() ==> #[trigger] after.spec_dirty(x) == (before.spec_dirty(x)
                || before.on_chain(id, x)),
    ensures
        after.spec_any_dirty(),
        after.spec_dirty(id),
        forall|camera_changed: bool, has_previous: bool|
            #[trigger] frame_action_for(after.spec_any_dirty(), camera_changed, has_previous)
                == FrameAction::Render,
{
    before.lemma_chain_unfold(id, id);
    assert(after.spec_dirty(id));
}

/// Sorted by z-index: a node with a higher z-index paints later.
pub open spec fn z_sorted<P, G>(g: &SceneGraph<P, G>, s: Seq<NodeId>) -> bool {
    forall|i: int, j: int| 0 <= i < j < s.len() ==> g.z_of(#[trigger] s[i]) <= g.z_of(#[trigger] s[j])
}

/// Inserting at `z_prefix` keeps a z-sorted sequence sorted.
proof fn lemma_insert_sorted<P, G>(g: &SceneGraph<P, G>, t: Seq<NodeId>, x: NodeId)
    requires
        z_sorted(g, t),
    ensures
        z_sorted(g, t.insert(g.z_prefix(t, g.z_of(x)) as int, x)),
        g.z_prefix(t, g.z_of(x)) <= t.len(),
    decreases t.len(),
{
    let z = g.z_of(x);
    let p = g.z_prefix(t, z);
    lemma_z_prefix(g, t, z);
    let u = t.insert(p as int, x);
    assert forall|i: int, j: int| 0 <= i < j < u.len() implies g.z_of(#[trigger] u[i]) <= g.z_of(
        #[trigger] u[j],
    ) by {
        if i < p && j == p {
            assert(u[i] == t[i]);
        } else if i == p && j > p {
            assert(u[j] == t[j - 1]);
        } else if j < p {
            assert(u[i] == t[i] && u[j] == t[j]);
        } else if i > p {
            assert(u[i] == t[i - 1] && u[j] == t[j - 1]);
        } else {
            assert(u[i] == t[i] && u[j] == t[j - 1]);
        }
    }
}

/// In a z-sorted sequence, the first `z_prefix(t, z)` entries paint at
/// most at `z` and the rest above it.
proof fn lemma_z_prefix<P, G>(g: &SceneGraph<P, G>, t: Seq<NodeId>, z: i32)
    requires
        z_sorted(g, t),
    ensures
        g.z_prefix(t, z) <= t.len(),
        forall|i: int| 0 <= i < g.z_prefix(t, z) ==> g.z_of(#[trigger] t[i]) <= z,
        forall|i: int| g.z_prefix(t, z) <= i < t.len() ==> g.z_of(#[trigger] t[i]) > z,
    decreases t.len(),
{
    if t.len() > 0 && g.z_of(t[0]) <= z {
        let r = t.drop_first();
        assert forall|i: int, j: int| 0 <= i < j < r.len() implies g.z_of(#[trigger] r[i]) <= g.z_of(
            #[trigger] r[j],
        ) by {
            assert(r[i] == t[i + 1] && r[j] == t[j + 1]);
        }
        lemma_z_prefix(g, r, z);
        assert forall|i: int| 0 <= i < g.z_prefix(t, z) implies g.z_of(#[trigger] t[i]) <= z by {
            if i > 0 {
                assert(t[i] == r[i - 1]);
            }
        }
        assert forall|i: int| g.z_prefix(t, z) <= i < t.len() implies g.z_of(#[trigger] t[i]) > z by {
            assert(t[i] == r[i - 1]);
        }
    } else if t.len() > 0 {
        assert forall|i: int| 0 <= i < t.len() implies g.z_of(#[trigger] t[i]) > z by {
            if i > 0 {
                assert(g.z_of(t[0]) <= g.z_of(t[i]));
            }
        }
    }
}

/// The paint order sorts by z-index (higher z paints later) and is a
/// rearrangement of the nodes it orders: each appears as often as before.
pub proof fn law_paint_order_sorted<P, G>(g: &SceneGraph<P, G>, s: Seq<NodeId>)
    ensures
        z_sorted(g, g.by_z(s)),
        g.by_z(s).to_multiset() == s.to_multiset(),
    decreases s.len(),
{
    if s.len() > 0 {
        let t = g.by_z(s.drop_last());
        law_paint_order_sorted(g, s.drop_last());
        lemma_insert_sorted(g, t, s.last());
        let p = g.z_prefix(t, g.z_of(s.last()));
        vstd::seq_lib::lemma_multiset_commutative(s.drop_last(), seq![s.last()]);
        assert(s =~= s.drop_last() + seq![s.last()]);
        let u = t.insert(p as int, s.last());
        assert(u =~= t.subrange(0, p as int) + seq![s.last()] + t.subrange(p as int, t.len() as int));
        assert(t =~= t.subrange(0, p as int) + t.subrange(p as int, t.len() as int));
        vstd::seq_lib::lemma_multiset_commutative(t.subrange(0, p as int), seq![s.last()]);
        vstd::seq_lib::lemma_multiset_commutative(
            t.subrange(0, p as int) + seq![s.last()],
            t.subrange(p as int, t.len() as int),
        );
        vstd::seq_lib::lemma_multiset_commutative(
            t.subrange(0, p as int),
            t.subrange(p as int, t.len() as int),
        );
        assert(u.to_multiset() =~= t.to_multiset().add(seq![s.last()].to_multiset()));
    } else {
        assert(g.by_z(s) =~= s);
    }
}

} // verus!
