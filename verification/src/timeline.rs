//! Timeline evaluation decisions: which animation drives each scene
//! property at a given time, and which nodes Create/Write-style plays
//! animate. The interpolation itself is real-valued and done by the caller.
use vstd::prelude::*;

use crate::scene::{NodeId, SceneGraph};

verus! {

/// The scene property an animation drives. Animations are grouped by
/// (target, property) during evaluation: at any time the last started
/// animation in the group wins; before the first one starts, the first one
/// is applied at alpha 0 (restoring the pre-animation state).
#[derive(Clone, Copy, Debug, PartialEq, Eq, Structural)]
pub enum Prop {
    Path,
    Opacity,
    Transform,
    Color,
}

/// The kind of an animation (its parameters are real-valued and live with
/// the caller).
#[derive(Clone, Copy, Debug, PartialEq, Eq, Structural)]
pub enum AnimationKind {
    Create,
    Uncreate,
    FadeIn,
    FadeOut,
    Shift,
    Scale,
    Rotate,
    Grow,
    Morph,
    Recolor,
    DrawBorderThenFill,
    Wiggle,
    ShowPassingFlash,
    MoveAlongPath,
    SpinIn,
    ChangingDecimal,
    Travel,
    ApplyWave,
    Restore,
}

/// The property each kind of animation drives.
pub open spec fn prop_of(kind: AnimationKind) -> Prop {
    match kind {
        AnimationKind::Create | AnimationKind::Uncreate | AnimationKind::Morph
        | AnimationKind::DrawBorderThenFill | AnimationKind::ShowPassingFlash
        | AnimationKind::ChangingDecimal | AnimationKind::ApplyWave => Prop::Path,
        AnimationKind::FadeIn | AnimationKind::FadeOut => Prop::Opacity,
        AnimationKind::Shift | AnimationKind::Scale | AnimationKind::Rotate | AnimationKind::Grow
        | AnimationKind::Wiggle | AnimationKind::MoveAlongPath | AnimationKind::SpinIn
        | AnimationKind::Travel | AnimationKind::Restore => Prop::Transform,
        AnimationKind::Recolor => Prop::Color,
    }
}

impl AnimationKind {
    /// The property this kind of animation drives.
    pub fn prop(&self) -> (p: Prop)
        ensures
            p == prop_of(*self),
    {
        match self {
            AnimationKind::Create | AnimationKind::Uncreate | AnimationKind::Morph
            | AnimationKind::DrawBorderThenFill | AnimationKind::ShowPassingFlash
            | AnimationKind::ChangingDecimal | AnimationKind::ApplyWave => Prop::Path,
            AnimationKind::FadeIn | AnimationKind::FadeOut => Prop::Opacity,
            AnimationKind::Shift | AnimationKind::Scale | AnimationKind::Rotate
            | AnimationKind::Grow | AnimationKind::Wiggle | AnimationKind::MoveAlongPath
            | AnimationKind::SpinIn | AnimationKind::Travel | AnimationKind::Restore => {
                Prop::Transform
            },
            AnimationKind::Recolor => Prop::Color,
        }
    }
}

/// Which animations share a property: the two fades (and only they) drive
/// opacity, Recolor alone drives color, the motions (Shift, Scale, Rotate,
/// Grow, Wiggle, MoveAlongPath, SpinIn, Travel, Restore) drive the
/// transform, and the outline animations (Create, Uncreate, Morph,
/// DrawBorderThenFill, ShowPassingFlash, ChangingDecimal, ApplyWave) drive
/// the path. So on one node a fade and a motion never override each other,
/// while FadeIn and FadeOut do.
pub proof fn law_prop_classes(k: AnimationKind, n: NodeId)
    ensures
        prop_of(k) == Prop::Opacity <==> (k == AnimationKind::FadeIn || k == AnimationKind::FadeOut),
        prop_of(k) == Prop::Color <==> k == AnimationKind::Recolor,
        prop_of(k) == Prop::Transform <==> (k == AnimationKind::Shift || k == AnimationKind::Scale
            || k == AnimationKind::Rotate || k == AnimationKind::Grow || k == AnimationKind::Wiggle
            || k == AnimationKind::MoveAlongPath || k == AnimationKind::SpinIn || k
            == AnimationKind::Travel || k == AnimationKind::Restore),
        prop_of(k) == Prop::Path <==> (k == AnimationKind::Create || k == AnimationKind::Uncreate
            || k == AnimationKind::Morph || k == AnimationKind::DrawBorderThenFill || k
            == AnimationKind::ShowPassingFlash || k == AnimationKind::ChangingDecimal || k
            == AnimationKind::ApplyWave),
        (n, prop_of(AnimationKind::FadeIn)) == (n, prop_of(AnimationKind::FadeOut)),
        (n, prop_of(AnimationKind::FadeIn)) != (n, prop_of(AnimationKind::Shift)),
{
}

/// The (target, property) key an animation is grouped by.
pub type GroupKey = (NodeId, Prop);

/// The distinct keys of `keys`, in order of first occurrence.
pub open spec fn group_keys(keys: Seq<GroupKey>) -> Seq<GroupKey>
    decreases keys.len(),
{
    if keys.len() == 0 {
        Seq::empty()
    } else {
        let prev = group_keys(keys.drop_last());
        if prev.contains(keys.last()) {
            prev
        } else {
            prev.push(keys.last())
        }
    }
}

/// The last index in `keys[..n]` with key `k` whose animation has
/// started.
pub open spec fn last_started(keys: Seq<GroupKey>, started: Seq<bool>, k: GroupKey, n: int) -> Option<
    int,
>
    decreases n,
{
    if n <= 0 {
        None
    } else if keys[n - 1] == k && started[n - 1] {
        Some(n - 1)
    } else {
        last_started(keys, started, k, n - 1)
    }
}

/// The first index in `keys[i..]` with key `k`.
pub open spec fn first_index(keys: Seq<GroupKey>, k: GroupKey, i: int) -> int
    decreases keys.len() - i,
{
    if i >= keys.len() || keys[i] == k {
        i
    } else {
        first_index(keys, k, i + 1)
    }
}

/// What evaluation applies for group `k`: the last started animation at
/// its current alpha (`true`), or else the group's first animation at
/// alpha 0 (`false`).
pub open spec fn group_choice(keys: Seq<GroupKey>, started: Seq<bool>, k: GroupKey) -> (usize, bool) {
    match last_started(keys, started, k, keys.len() as int) {
        Some(i) => (i as usize, true),
        None => (first_index(keys, k, 0) as usize, false),
    }
}

/// The evaluation plan: one choice per (target, property) group, groups in
/// order of first occurrence.
pub open spec fn plan(keys: Seq<GroupKey>, started: Seq<bool>) -> Seq<(usize, bool)> {
    group_keys(keys).map_values(|k: GroupKey| group_choice(keys, started, k))
}

/// Whether two group keys are equal.
fn same_key(a: GroupKey, b: GroupKey) -> (r: bool)
    ensures
        r == (a == b),
{
    a.0 == b.0 && a.1 == b.1
}

/// `group_choice` for one key.
fn choose_for(keys: &[GroupKey], started: &[bool], k: GroupKey) -> (r: (usize, bool))
    requires
        keys@.len() == started@.len(),
    ensures
        r == group_choice(keys@, started@, k),
{
    let mut n: usize = keys.len();
    while n > 0
        invariant
            n <= keys@.len(),
            keys@.len() == started@.len(),
            last_started(keys@, started@, k, keys@.len() as int) == last_started(
                keys@,
                started@,
                k,
                n as int,
            ),
        decreases n,
    {
        if same_key(keys[n - 1], k) && started[n - 1] {
            return (n - 1, true);
        }
        n = n - 1;
    }
    let mut i: usize = 0;
    while i < keys.len() && !same_key(keys[i], k)
        invariant
            i <= keys@.len(),
            first_index(keys@, k, 0) == first_index(keys@, k, i as int),
        decreases keys@.len() - i,
    {
        i = i + 1;
    }
    (i, false)
}

/// Whether `k` occurs in `seen`.
fn has_key(seen: &Vec<GroupKey>, k: GroupKey) -> (r: bool)
    ensures
        r == seen@.contains(k),
{
    let mut i: usize = 0;
    while i < seen.len()
        invariant
            i <= seen@.len(),
            forall|j: int| 0 <= j < i ==> seen@[j] != k,
        decreases seen@.len() - i,
    {
        if same_key(seen[i], k) {
            proof {
                assert(seen@[i as int] == k);
            }
            return true;
        }
        i = i + 1;
    }
    false
}

/// The plan `Timeline::apply` follows for animations with group keys
/// `keys` (target and property, in push order) when `started[i]` tells
/// whether animation `i` has started: for each group, in order of first
/// occurrence, the index of the animation to apply and whether it applies
/// at its current alpha (`true`) or at alpha 0 (`false`).
pub fn apply_plan(keys: &[GroupKey], started: &[bool]) -> (r: Vec<(usize, bool)>)
    requires
        keys@.len() == started@.len(),
    ensures
        r@ == plan(keys@, started@),
{
    let mut seen: Vec<GroupKey> = Vec::new();
    let mut out: Vec<(usize, bool)> = Vec::new();
    let mut i: usize = 0;
    while i < keys.len()
        invariant
            i <= keys@.len(),
            keys@.len() == started@.len(),
            seen@ == group_keys(keys@.subrange(0, i as int)),
            out@ == seen@.map_values(|k: GroupKey| group_choice(keys@, started@, k)),
        decreases keys@.len() - i,
    {
        let k = keys[i];
        proof {
            let s = keys@.subrange(0, i + 1);
            assert(s.drop_last() =~= keys@.subrange(0, i as int));
            assert(s.last() == k);
        }
        if !has_key(&seen, k) {
            let c = choose_for(keys, started, k);
            let ghost before = seen@;
            seen.push(k);
            out.push(c);
            proof {
                assert(out@ =~= seen@.map_values(|k: GroupKey| group_choice(keys@, started@, k)));
            }
        }
        i = i + 1;
    }
    proof {
        assert(keys@.subrange(0, keys@.len() as int) =~= keys@);
    }
    out
}

/// Leaves to animate for Create/Write/Uncreate: the path-bearing leaves
/// under `target`, or `target` itself when there are none (an empty group,
/// or a leaf without a path).
pub fn path_targets<P, G>(graph: &SceneGraph<P, G>, target: NodeId) -> (r: Vec<NodeId>)
    requires
        graph.wf_structure(),
        target < graph.spec_len(),
    ensures
        r@ == if graph.leaves(target).len() == 0 {
            seq![target]
        } else {
            graph.leaves(target)
        },
{
    let leaves = graph.path_leaves(target);
    if leaves.len() == 0 {
        let mut v: Vec<NodeId> = Vec::new();
        v.push(target);
        proof {
            assert(v@ =~= seq![target]);
        }
        v
    } else {
        leaves
    }
}

/// Nodes ShowIncreasingSubsets fades in one after another: the children
/// of `target`, or its path targets when it has none.
pub fn subset_targets<P, G>(graph: &SceneGraph<P, G>, target: NodeId) -> (r: Vec<NodeId>)
    requires
        graph.wf_structure(),
        target < graph.spec_len(),
    ensures
        r@ == if graph.spec_children(target).len() == 0 {
            if graph.leaves(target).len() == 0 {
                seq![target]
            } else {
                graph.leaves(target)
            }
        } else {
            graph.spec_children(target)
        },
{
    let kids = graph.children_of(target);
    if kids.len() == 0 {
        path_targets(graph, target)
    } else {
        let mut v: Vec<NodeId> = Vec::new();
        let mut i: usize = 0;
        while i < kids.len()
            invariant
                i <= kids@.len(),
                v@ == kids@.subrange(0, i as int),
            decreases kids@.len() - i,
        {
            v.push(kids[i]);
            proof {
                assert(kids@.subrange(0, i + 1) =~= kids@.subrange(0, i as int).push(
                    kids@[i as int],
                ));
            }
            i = i + 1;
        }
        proof {
            assert(kids@.subrange(0, kids@.len() as int) =~= kids@);
        }
        v
    }
}

/// `group_keys` lists each key of `keys` exactly once.
proof fn lemma_group_keys(keys: Seq<GroupKey>)
    ensures
        forall|k: GroupKey| #[trigger] group_keys(keys).contains(k) == keys.contains(k),
        forall|a: int, b: int|
            0 <= a < b < group_keys(keys).len() ==> group_keys(keys)[a] != group_keys(keys)[b],
    decreases keys.len(),
{
    if keys.len() > 0 {
        let t = keys.drop_last();
        let last = keys.last();
        lemma_group_keys(t);
        let prev = group_keys(t);
        let cur = group_keys(keys);
        assert(keys =~= t.push(last));
        if prev.contains(last) {
            assert(cur == prev);
            assert forall|k: GroupKey| #[trigger] cur.contains(k) == keys.contains(k) by {
                if keys.contains(k) {
                    let i = choose|i: int| 0 <= i < keys.len() && keys[i] == k;
                    if i < t.len() {
                        assert(t[i] == k);
                        assert(t.contains(k));
                    }
                }
                if cur.contains(k) {
                    assert(t.contains(k));
                    let i = choose|i: int| 0 <= i < t.len() && t[i] == k;
                    assert(keys[i] == k);
                }
            }
        } else {
            assert(cur == prev.push(last));
            assert forall|k: GroupKey| #[trigger] cur.contains(k) == keys.contains(k) by {
                if keys.contains(k) {
                    let i = choose|i: int| 0 <= i < keys.len() && keys[i] == k;
                    if i < t.len() {
                        assert(t[i] == k);
                        assert(t.contains(k));
                        assert(prev.contains(k));
                        let j = choose|j: int| 0 <= j < prev.len() && prev[j] == k;
                        assert(cur[j] == k);
                    } else {
                        assert(cur[prev.len() as int] == k);
                    }
                }
                if cur.contains(k) {
                    let j = choose|j: int| 0 <= j < cur.len() && cur[j] == k;
                    if j < prev.len() {
                        assert(prev[j] == k);
                        assert(prev.contains(k));
                        assert(t.contains(k));
                        let i = choose|i: int| 0 <= i < t.len() && t[i] == k;
                        assert(keys[i] == k);
                    } else {
                        assert(keys[keys.len() - 1] == k);
                    }
                }
            }
            assert forall|a: int, b: int| 0 <= a < b < cur.len() implies cur[a] != cur[b] by {
                if b == prev.len() {
                    assert(cur[a] == prev[a]);
                    assert(prev.contains(prev[a]));
                } else {
                    assert(cur[a] == prev[a] && cur[b] == prev[b]);
                }
            }
        }
    }
}

/// The first index with key `k`, when `k` occurs from `i` on, holds `k`.
proof fn lemma_first_index(keys: Seq<GroupKey>, k: GroupKey, i: int)
    requires
        0 <= i <= keys.len(),
        exists|j: int| i <= j < keys.len() && keys[j] == k,
    ensures
        i <= first_index(keys, k, i) < keys.len(),
        keys[first_index(keys, k, i)] == k,
        forall|m: int| i <= m < first_index(keys, k, i) ==> keys[m] != k,
    decreases keys.len() - i,
{
    if keys[i] != k {
        let j = choose|j: int| i <= j < keys.len() && keys[j] == k;
        assert(j != i);
        lemma_first_index(keys, k, i + 1);
    }
}

/// A started index found by `last_started` holds `k`.
proof fn lemma_last_started(keys: Seq<GroupKey>, started: Seq<bool>, k: GroupKey, n: int)
    requires
        0 <= n <= keys.len(),
    ensures
        last_started(keys, started, k, n) matches Some(i) ==> 0 <= i < n && keys[i] == k && started[i]
            && forall|m: int| i < m < n && keys[m] == k ==> !started[m],
        last_started(keys, started, k, n) is None ==> forall|m: int|
            0 <= m < n && keys[m] == k ==> !started[m],
    decreases n,
{
    if n > 0 {
        lemma_last_started(keys, started, k, n - 1);
    }
}

/// Evaluation applies exactly one animation per (target, property) group:
/// every animation's group appears once in the plan, and each entry of the
/// plan names an animation of its own group. When some animation of the
/// group has started, it is the last one started, applied at its current
/// alpha; when none has, it is the group's first, applied at alpha 0.
pub proof fn law_one_choice_per_group(keys: Seq<GroupKey>, started: Seq<bool>)
    requires
        keys.len() == started.len(),
        keys.len() <= usize::MAX,
    ensures
        plan(keys, started).len() == group_keys(keys).len(),
        forall|i: int|
            0 <= i < keys.len() ==> #[trigger] group_keys(keys).contains(keys[i]),
        forall|a: int, b: int|
            0 <= a < b < group_keys(keys).len() ==> group_keys(keys)[a] != group_keys(keys)[b],
        forall|j: int|
            0 <= j < group_keys(keys).len() ==> {
                let c = #[trigger] plan(keys, started)[j];
                let k = group_keys(keys)[j];
                &&& c.0 < keys.len()
                &&& keys[c.0 as int] == k
                &&& c.1 ==> started[c.0 as int] && forall|m: int|
                    c.0 < m < keys.len() && keys[m] == k ==> !started[m]
                &&& !c.1 ==> forall|m: int| 0 <= m < keys.len() && keys[m] == k ==> !started[m]
                &&& !c.1 ==> forall|m: int| 0 <= m < c.0 ==> keys[m] != k
            },
{
    lemma_group_keys(keys);
    assert forall|i: int| 0 <= i < keys.len() implies #[trigger] group_keys(keys).contains(keys[i]) by {
        assert(keys.contains(keys[i]));
    }
    assert forall|j: int| 0 <= j < group_keys(keys).len() implies {
        let c = #[trigger] plan(keys, started)[j];
        let k = group_keys(keys)[j];
        &&& c.0 < keys.len()
        &&& keys[c.0 as int] == k
        &&& c.1 ==> started[c.0 as int] && forall|m: int|
            c.0 < m < keys.len() && keys[m] == k ==> !started[m]
        &&& !c.1 ==> forall|m: int| 0 <= m < keys.len() && keys[m] == k ==> !started[m]
        &&& !c.1 ==> forall|m: int| 0 <= m < c.0 ==> keys[m] != k
    } by {
        let k = group_keys(keys)[j];
        assert(plan(keys, started)[j] == group_choice(keys, started, k));
        assert(group_keys(keys).contains(k));
        assert(keys.contains(k));
        lemma_last_started(keys, started, k, keys.len() as int);
        match last_started(keys, started, k, keys.len() as int) {
            Some(i) => {},
            None => {
                lemma_first_index(keys, k, 0);
            },
        }
    }
}

} // verus!
