//! Layers of the tree layout for network graphs: vertices are layered by
//! breadth-first distance from the smallest vertex of their connected
//! component; components are stacked, each starting one layer below the
//! deepest layer of the components before it. Positions inside the layers
//! are real-valued and placed by the caller.
use vstd::prelude::*;

verus! {

/// An edge the layout uses: both ends are vertices and it is no loop.
pub open spec fn valid_edge(n: nat, e: (usize, usize)) -> bool {
    e.0 < n && e.1 < n && e.0 != e.1
}

/// Edge `j` is valid and joins `v` to a member of `r`.
pub open spec fn joins(n: nat, edges: Seq<(usize, usize)>, r: Set<int>, j: int, v: int) -> bool {
    &&& 0 <= j < edges.len()
    &&& valid_edge(n, edges[j])
    &&& ((r.contains(edges[j].0 as int) && edges[j].1 == v) || (r.contains(edges[j].1 as int)
        && edges[j].0 == v))
}

/// The vertices at most `k` valid edges away from `s`.
pub open spec fn reach(n: nat, edges: Seq<(usize, usize)>, s: int, k: nat) -> Set<int>
    decreases k,
{
    if k == 0 {
        set![s]
    } else {
        let r = reach(n, edges, s, (k - 1) as nat);
        r.union(Set::new(|v: int| exists|j: int| #[trigger] joins(n, edges, r, j, v)))
    }
}

/// `v` is at most `k` (valid) edges away from `s`.
pub open spec fn within(n: nat, edges: Seq<(usize, usize)>, s: int, k: nat, v: int) -> bool {
    reach(n, edges, s, k).contains(v)
}

/// Edge `j` joins `v` to a vertex at most `k` edges away from `s`.
pub open spec fn step(n: nat, edges: Seq<(usize, usize)>, s: int, k: nat, j: int, v: int) -> bool {
    joins(n, edges, reach(n, edges, s, k), j, v)
}

/// The first `d >= k` (and at most `n`) with `v` within `d` edges of `s`:
/// from `k == 0`, the distance from `s` to a vertex `s` reaches.
pub open spec fn first_within(n: nat, edges: Seq<(usize, usize)>, s: int, v: int, k: nat) -> nat
    decreases n + 1 - k,
{
    if k >= n || within(n, edges, s, k, v) {
        k
    } else {
        first_within(n, edges, s, v, k + 1)
    }
}

/// The smallest vertex `u >= a` that reaches `v` (within `n` edges), or
/// `n` when there is none: from `a == 0`, the seed of `v`'s component.
pub open spec fn reacher(n: nat, edges: Seq<(usize, usize)>, v: int, a: nat) -> nat
    decreases n - a,
{
    if a >= n {
        n
    } else if within(n, edges, a as int, n, v) {
        a
    } else {
        reacher(n, edges, v, a + 1)
    }
}

/// The seed of vertex `v`: the smallest vertex of its component.
pub open spec fn seed(n: nat, edges: Seq<(usize, usize)>, v: int) -> nat {
    reacher(n, edges, v, 0)
}

/// The layer of vertex `v`: its component's base plus its distance from
/// the component's seed.
pub open spec fn layer(n: nat, edges: Seq<(usize, usize)>, v: int) -> int
    decreases seed(n, edges, v), 2nat, 0nat,
{
    base(n, edges, seed(n, edges, v)) + first_within(n, edges, seed(n, edges, v) as int, v, 0)
}

/// The first layer of the component seeded at `s`: 0 for the first
/// component, else one below the deepest layer of the vertices whose seeds
/// come before `s`.
pub open spec fn base(n: nat, edges: Seq<(usize, usize)>, s: nat) -> int
    decreases s, 1nat, 0nat,
{
    if s == 0 {
        0
    } else {
        1 + deepest_before(n, edges, s, n)
    }
}

/// The deepest layer among vertices `u < m` whose seed is below `s`, or
/// -1 when there is none.
pub open spec fn deepest_before(n: nat, edges: Seq<(usize, usize)>, s: nat, m: nat) -> int
    decreases s, 0nat, m,
{
    if m == 0 {
        -1
    } else {
        let rest = deepest_before(n, edges, s, (m - 1) as nat);
        let u = (m - 1) as int;
        if seed(n, edges, u) < s {
            let l = layer(n, edges, u);
            if l > rest {
                l
            } else {
                rest
            }
        } else {
            rest
        }
    }
}

// ----- facts about `within` -------------------------------------------------

/// One step of `within`.
pub proof fn lemma_within_unfold(n: nat, edges: Seq<(usize, usize)>, s: int, k: nat, v: int)
    requires
        k > 0,
    ensures
        within(n, edges, s, k, v) == (within(n, edges, s, (k - 1) as nat, v) || exists|j: int|
            0 <= j < edges.len() && #[trigger] step(n, edges, s, (k - 1) as nat, j, v)),
{
    let r = reach(n, edges, s, (k - 1) as nat);
    if exists|j: int| #[trigger] joins(n, edges, r, j, v) {
        let j = choose|j: int| #[trigger] joins(n, edges, r, j, v);
        assert(step(n, edges, s, (k - 1) as nat, j, v));
    }
    if exists|j: int| 0 <= j < edges.len() && #[trigger] step(n, edges, s, (k - 1) as nat, j, v) {
        let j = choose|j: int| 0 <= j < edges.len() && #[trigger] step(n, edges, s, (k - 1) as nat, j, v);
        assert(joins(n, edges, r, j, v));
    }
}

/// What `s` reaches are vertices.
pub proof fn lemma_within_range(n: nat, edges: Seq<(usize, usize)>, s: int, k: nat, v: int)
    requires
        0 <= s < n,
        within(n, edges, s, k, v),
    ensures
        0 <= v < n,
    decreases k,
{
    if k > 0 {
        lemma_within_unfold(n, edges, s, k, v);
    }
    if k > 0 && !within(n, edges, s, (k - 1) as nat, v) {
        let j = choose|j: int| 0 <= j < edges.len() && #[trigger] step(n, edges, s, (k - 1) as nat, j, v);
    } else if k > 0 {
        lemma_within_range(n, edges, s, (k - 1) as nat, v);
    }
}

/// Reaching within `k` edges means reaching within any `k2 >= k`.
pub proof fn lemma_within_mono(n: nat, edges: Seq<(usize, usize)>, s: int, k: nat, k2: nat, v: int)
    requires
        k <= k2,
        within(n, edges, s, k, v),
    ensures
        within(n, edges, s, k2, v),
    decreases k2,
{
    if k < k2 {
        lemma_within_mono(n, edges, s, k, (k2 - 1) as nat, v);
        lemma_within_unfold(n, edges, s, k2, v);
    }
}

/// A region that valid edges never leave holds everything its members
/// reach.
pub proof fn lemma_within_closed(
    n: nat,
    edges: Seq<(usize, usize)>,
    region: spec_fn(int) -> bool,
    s: int,
    k: nat,
    v: int,
)
    requires
        region(s),
        forall|j: int|
            0 <= j < edges.len() && valid_edge(n, #[trigger] edges[j]) ==> (region(edges[j].0 as int)
                == region(edges[j].1 as int)),
        within(n, edges, s, k, v),
    ensures
        region(v),
    decreases k,
{
    if k > 0 {
        lemma_within_unfold(n, edges, s, k, v);
        if within(n, edges, s, (k - 1) as nat, v) {
            lemma_within_closed(n, edges, region, s, (k - 1) as nat, v);
        } else {
            let j = choose|j: int| 0 <= j < edges.len() && #[trigger] step(n, edges, s, (k - 1) as nat, j, v);
            if within(n, edges, s, (k - 1) as nat, edges[j].0 as int) && edges[j].1 == v {
                lemma_within_closed(n, edges, region, s, (k - 1) as nat, edges[j].0 as int);
            } else {
                lemma_within_closed(n, edges, region, s, (k - 1) as nat, edges[j].1 as int);
            }
        }
    }
}

/// Once a round reaches nothing new, no later round does.
pub proof fn lemma_within_stable(n: nat, edges: Seq<(usize, usize)>, s: int, k: nat, k2: nat)
    requires
        k <= k2,
        forall|v: int| within(n, edges, s, k + 1, v) == within(n, edges, s, k, v),
    ensures
        forall|v: int| within(n, edges, s, k2, v) == within(n, edges, s, k, v),
    decreases k2,
{
    if k < k2 {
        lemma_within_stable(n, edges, s, k, (k2 - 1) as nat);
        assert forall|v: int| within(n, edges, s, k2, v) == within(n, edges, s, k, v) by {
            lemma_within_unfold(n, edges, s, k2, v);
            lemma_within_unfold(n, edges, s, k + 1, v);
            assert forall|j: int| 0 <= j < edges.len() implies step(n, edges, s, (k2 - 1) as nat, j, v)
                == step(n, edges, s, k, j, v) by {
                assert(within(n, edges, s, (k2 - 1) as nat, edges[j].0 as int) == within(
                    n,
                    edges,
                    s,
                    k,
                    edges[j].0 as int,
                ));
                assert(within(n, edges, s, (k2 - 1) as nat, edges[j].1 as int) == within(
                    n,
                    edges,
                    s,
                    k,
                    edges[j].1 as int,
                ));
            }
            if exists|j: int| 0 <= j < edges.len() && #[trigger] step(n, edges, s, (k2 - 1) as nat, j, v) {
                let j = choose|j: int| 0 <= j < edges.len() && #[trigger] step(n, edges, s, (k2 - 1) as nat, j, v);
                assert(step(n, edges, s, k, j, v));
                assert(within(n, edges, s, k + 1, v));
            }
            if exists|j: int| 0 <= j < edges.len() && #[trigger] step(n, edges, s, k, j, v) {
                let j = choose|j: int| 0 <= j < edges.len() && #[trigger] step(n, edges, s, k, j, v);
                assert(step(n, edges, s, (k2 - 1) as nat, j, v));
            }
        }
    }
}

/// The distance is the first round that reaches `v`.
pub proof fn lemma_first_within(n: nat, edges: Seq<(usize, usize)>, s: int, v: int, d: nat, k: nat)
    requires
        k <= d <= n,
        within(n, edges, s, d, v),
        d == 0 || !within(n, edges, s, (d - 1) as nat, v),
    ensures
        first_within(n, edges, s, v, k) == d,
    decreases d - k,
{
    if k < d {
        if within(n, edges, s, k, v) {
            lemma_within_mono(n, edges, s, k, (d - 1) as nat, v);
        }
        lemma_first_within(n, edges, s, v, d, k + 1);
    }
}

/// Every vertex reaches itself.
pub proof fn lemma_within_self(n: nat, edges: Seq<(usize, usize)>, s: int, k: nat)
    ensures
        within(n, edges, s, k, s),
{
    assert(within(n, edges, s, 0, s));
    lemma_within_mono(n, edges, s, 0, k, s);
}

/// The seed search stops at the first vertex that reaches `v`.
pub proof fn lemma_reacher(n: nat, edges: Seq<(usize, usize)>, v: int, a: nat, s: nat)
    requires
        a <= s < n,
        forall|u: nat| a <= u < s ==> !#[trigger] within(n, edges, u as int, n, v),
        within(n, edges, s as int, n, v),
    ensures
        reacher(n, edges, v, a) == s,
    decreases s - a,
{
    if a < s {
        lemma_reacher(n, edges, v, a + 1, s);
    }
}

/// The seed search passes every vertex up to `t` that does not reach `v`.
pub proof fn lemma_reacher_above(n: nat, edges: Seq<(usize, usize)>, v: int, a: nat, t: nat)
    requires
        a <= t + 1,
        t < n,
        forall|u: nat| a <= u <= t ==> !#[trigger] within(n, edges, u as int, n, v),
    ensures
        reacher(n, edges, v, a) > t,
    decreases n + 1 - a,
{
    if a <= t {
        lemma_reacher_above(n, edges, v, a + 1, t);
    } else {
        lemma_reacher_ge(n, edges, v, a);
    }
}

/// The seed search never returns below where it starts.
pub proof fn lemma_reacher_ge(n: nat, edges: Seq<(usize, usize)>, v: int, a: nat)
    requires
        a <= n,
    ensures
        reacher(n, edges, v, a) >= a,
    decreases n - a,
{
    if a < n && !within(n, edges, a as int, n, v) {
        lemma_reacher_ge(n, edges, v, a + 1);
    }
}

/// A vertex's seed is no larger than the vertex.
pub proof fn lemma_seed_le(n: nat, edges: Seq<(usize, usize)>, v: nat, a: nat)
    requires
        a <= v < n,
    ensures
        reacher(n, edges, v as int, a) <= v,
    decreases v - a,
{
    lemma_within_self(n, edges, v as int, n);
    if a < v && !within(n, edges, a as int, n, v as int) {
        lemma_seed_le(n, edges, v, a + 1);
    }
}

// ----- counting and maxima over a partial layering ---------------------------

/// Number of assigned entries.
pub open spec fn count_some(s: Seq<Option<usize>>) -> nat
    decreases s.len(),
{
    if s.len() == 0 {
        0
    } else {
        count_some(s.drop_last()) + if s.last() is Some {
            1nat
        } else {
            0nat
        }
    }
}

proof fn lemma_count_le(s: Seq<Option<usize>>)
    ensures
        count_some(s) <= s.len(),
    decreases s.len(),
{
    if s.len() > 0 {
        lemma_count_le(s.drop_last());
    }
}

proof fn lemma_count_update(s: Seq<Option<usize>>, i: int, x: usize)
    requires
        0 <= i < s.len(),
        s[i] is None,
    ensures
        count_some(s.update(i, Some(x))) == count_some(s) + 1,
    decreases s.len(),
{
    let t = s.update(i, Some(x));
    if i < s.len() - 1 {
        assert(t.drop_last() =~= s.drop_last().update(i, Some(x)));
        lemma_count_update(s.drop_last(), i, x);
    } else {
        assert(t.drop_last() =~= s.drop_last());
    }
}

/// The largest assigned entry among the first `m`, or -1.
pub open spec fn max_assigned(s: Seq<Option<usize>>, m: nat) -> int
    decreases m,
{
    if m == 0 {
        -1
    } else {
        let rest = max_assigned(s, (m - 1) as nat);
        match s[m - 1] {
            Some(l) => if l > rest {
                l as int
            } else {
                rest
            },
            None => rest,
        }
    }
}

/// `max_assigned` is the maximum: no entry exceeds it, and one attains it.
proof fn lemma_max_assigned(s: Seq<Option<usize>>, m: nat, top: int)
    requires
        m <= s.len(),
        -1 <= top <= usize::MAX,
        forall|u: int| 0 <= u < m ==> (#[trigger] s[u] matches Some(l) ==> l <= top),
        top == -1 || exists|u: int| 0 <= u < m && s[u] == Some(top as usize),
    ensures
        max_assigned(s, m) == top,
    decreases m,
{
    if m > 0 {
        let rest_top = max_assigned(s, (m - 1) as nat);
        lemma_max_bounds(s, (m - 1) as nat);
        if rest_top != -1 {
            let w = choose|u: int| 0 <= u < m - 1 && s[u] == Some(rest_top as usize);
            assert(s[w] matches Some(l) ==> l <= top);
            assert(rest_top <= top);
        }
        assert(s[m - 1] matches Some(l) ==> l <= top);
        if top != -1 {
            let u = choose|u: int| 0 <= u < m && s[u] == Some(top as usize);
            if u < m - 1 {
                assert(s[u] matches Some(l) ==> l <= rest_top);
                assert(rest_top >= top);
            }
        }
    } else {
        if top != -1 {
            let u = choose|u: int| 0 <= u < m && s[u] == Some(top as usize);
        }
    }
}

proof fn lemma_max_bounds(s: Seq<Option<usize>>, m: nat)
    requires
        m <= s.len(),
    ensures
        forall|u: int| 0 <= u < m ==> (#[trigger] s[u] matches Some(l) ==> l <= max_assigned(s, m)),
        max_assigned(s, m) == -1 || exists|u: int| 0 <= u < m && s[u] == Some(max_assigned(s, m) as usize),
        -1 <= max_assigned(s, m) <= usize::MAX,
    decreases m,
{
    if m > 0 {
        lemma_max_bounds(s, (m - 1) as nat);
        let rest = max_assigned(s, (m - 1) as nat);
        if max_assigned(s, m) != rest {
            assert(s[m - 1] == Some(max_assigned(s, m) as usize));
        } else if rest != -1 {
            let u = choose|u: int| 0 <= u < m - 1 && s[u] == Some(rest as usize);
            assert(s[u] == Some(max_assigned(s, m) as usize));
        }
    }
}

/// When the assigned entries are exactly the vertices seeded before `t`,
/// each at its layer, `deepest_before(t, _)` is their maximum.
proof fn lemma_deepest(n: nat, edges: Seq<(usize, usize)>, lay: Seq<Option<usize>>, t: nat, m: nat)
    requires
        lay.len() == n,
        m <= n,
        forall|u: int| 0 <= u < n ==> (#[trigger] lay[u] is Some <==> seed(n, edges, u) < t),
        forall|u: int| 0 <= u < n ==> (#[trigger] lay[u] matches Some(l) ==> l == layer(n, edges, u)),
    ensures
        deepest_before(n, edges, t, m) == max_assigned(lay, m),
    decreases m,
{
    if m > 0 {
        lemma_deepest(n, edges, lay, t, (m - 1) as nat);
        let u = (m - 1) as int;
        assert(lay[u] is Some <==> seed(n, edges, u) < t);
    }
}

// ----- the layering algorithm -------------------------------------------------

/// Edge `j` is valid and joins `v` to a vertex at `level` in `lay`.
pub open spec fn hits(n: nat, edges: Seq<(usize, usize)>, lay: Seq<Option<usize>>, level: usize, j: int, v: int) -> bool {
    &&& 0 <= j < edges.len()
    &&& valid_edge(n, edges[j])
    &&& ((lay[edges[j].0 as int] == Some(level) && edges[j].1 == v) || (lay[edges[j].1 as int]
        == Some(level) && edges[j].0 == v))
}

/// Whether slot `x` holds `level`.
fn at_level(lay: &Vec<Option<usize>>, x: usize, level: usize) -> (r: bool)
    requires
        x < lay@.len(),
    ensures
        r == (lay@[x as int] == Some(level)),
{
    match lay[x] {
        Some(l) => l == level,
        None => false,
    }
}

/// One round: every unassigned vertex joined by a valid edge to a vertex
/// at `level` gets `level + 1`. Returns whether any vertex did.
fn bfs_round(n: usize, edges: &[(usize, usize)], lay: &mut Vec<Option<usize>>, level: usize) -> (changed: bool)
    requires
        old(lay)@.len() == n,
        level < usize::MAX,
    ensures
        final(lay)@.len() == n,
        forall|v: int|
            0 <= v < n ==> #[trigger] final(lay)@[v] == if old(lay)@[v] is None && exists|i: int|
                #[trigger] hits(n as nat, edges@, old(lay)@, level, i, v) {
                Some((level + 1) as usize)
            } else {
                old(lay)@[v]
            },
        !changed ==> final(lay)@ == old(lay)@,
        changed ==> count_some(final(lay)@) > count_some(old(lay)@),
        changed ==> exists|v: int|
            0 <= v < n && old(lay)@[v] is None && final(lay)@[v] == Some((level + 1) as usize),
{
    let ghost l0 = lay@;
    let ghost mut wit: int = 0;
    let mut changed = false;
    let mut j: usize = 0;
    while j < edges.len()
        invariant
            changed ==> 0 <= wit < n && l0[wit] is None && lay@[wit] == Some((level + 1) as usize),
            lay@.len() == n,
            l0.len() == n,
            l0 == old(lay)@,
            level < usize::MAX,
            j <= edges@.len(),
            forall|v: int|
                0 <= v < n ==> #[trigger] lay@[v] == if l0[v] is None && exists|i: int|
                    0 <= i < j && #[trigger] hits(n as nat, edges@, l0, level, i, v) {
                    Some((level + 1) as usize)
                } else {
                    l0[v]
                },
            !changed ==> lay@ == l0,
            changed ==> count_some(lay@) > count_some(l0),
            count_some(lay@) >= count_some(l0),
        decreases edges@.len() - j,
    {
        let (a, b) = edges[j];
        let ghost before = lay@;
        if a < n && b < n && a != b {
            let a_at = at_level(lay, a, level);
            let b_at = at_level(lay, b, level);
            proof {
                // the level test reads the same on the round's start
                assert(before[a as int] == Some(level) <==> l0[a as int] == Some(level));
                assert(before[b as int] == Some(level) <==> l0[b as int] == Some(level));
            }
            if a_at && lay[b].is_none() {
                proof {
                    lemma_count_update(lay@, b as int, (level + 1) as usize);
                }
                lay.set(b, Some(level + 1));
                changed = true;
                proof {
                    wit = b as int;
                }
            }
            if b_at && lay[a].is_none() {
                proof {
                    lemma_count_update(lay@, a as int, (level + 1) as usize);
                }
                lay.set(a, Some(level + 1));
                changed = true;
                proof {
                    wit = a as int;
                }
            }
        }
        proof {
            assert forall|v: int| 0 <= v < n implies #[trigger] lay@[v] == if l0[v] is None && exists|i: int|
                0 <= i < j + 1 && #[trigger] hits(n as nat, edges@, l0, level, i, v) {
                Some((level + 1) as usize)
            } else {
                l0[v]
            } by {
                assert(before[v] == if l0[v] is None && exists|i: int|
                    0 <= i < j && #[trigger] hits(n as nat, edges@, l0, level, i, v) {
                    Some((level + 1) as usize)
                } else {
                    l0[v]
                });
                if hits(n as nat, edges@, l0, level, j as int, v) {
                    if l0[v] is None {
                        assert(lay@[v] == Some((level + 1) as usize));
                    }
                }
                if exists|i: int| 0 <= i < j + 1 && #[trigger] hits(n as nat, edges@, l0, level, i, v) {
                    let i = choose|i: int| 0 <= i < j + 1 && #[trigger] hits(n as nat, edges@, l0, level, i, v);
                    if i < j {
                        assert(exists|i: int| 0 <= i < j && #[trigger] hits(n as nat, edges@, l0, level, i, v));
                    }
                } else {
                    assert(!hits(n as nat, edges@, l0, level, j as int, v));
                }
            }
            if changed {
                assert(l0[wit] is None);
            }
        }
        j = j + 1;
    }
    proof {
        assert forall|v: int| 0 <= v < n implies #[trigger] lay@[v] == if l0[v] is None && exists|i: int|
            #[trigger] hits(n as nat, edges@, l0, level, i, v) {
            Some((level + 1) as usize)
        } else {
            l0[v]
        } by {
            if exists|i: int| #[trigger] hits(n as nat, edges@, l0, level, i, v) {
                let i = choose|i: int| #[trigger] hits(n as nat, edges@, l0, level, i, v);
                assert(0 <= i < j);
            }
        }
        if changed {
            assert(lay@[wit] == Some((level + 1) as usize));
        }
    }
    changed
}

/// `first_within` from `k0` stops at a round that reaches `v`, no later
/// than any round `k` that does.
proof fn lemma_first_within_sound(n: nat, edges: Seq<(usize, usize)>, s: int, v: int, k0: nat, k: nat)
    requires
        k0 <= k <= n,
        within(n, edges, s, k, v),
    ensures
        first_within(n, edges, s, v, k0) <= k,
        within(n, edges, s, first_within(n, edges, s, v, k0), v),
    decreases k - k0,
{
    if k0 < k && !within(n, edges, s, k0, v) {
        lemma_first_within_sound(n, edges, s, v, k0 + 1, k);
    }
}

/// A seed the search finds reaches `v`.
proof fn lemma_reacher_within(n: nat, edges: Seq<(usize, usize)>, v: int, a: nat)
    requires
        a <= n,
        reacher(n, edges, v, a) < n,
    ensures
        within(n, edges, reacher(n, edges, v, a) as int, n, v),
    decreases n - a,
{
    if a < n && !within(n, edges, a as int, n, v) {
        lemma_reacher_within(n, edges, v, a + 1);
    }
}

proof fn lemma_count_none(s: Seq<Option<usize>>)
    requires
        forall|i: int| 0 <= i < s.len() ==> #[trigger] s[i] is None,
    ensures
        count_some(s) == 0,
    decreases s.len(),
{
    if s.len() > 0 {
        lemma_count_none(s.drop_last());
    }
}

/// The assigned region before a component is explored: closed under valid
/// edges.
pub open spec fn closed(n: nat, edges: Seq<(usize, usize)>, lay: Seq<Option<usize>>) -> bool {
    forall|j: int|
        0 <= j < edges.len() && valid_edge(n, #[trigger] edges[j]) ==> (lay[edges[j].0 as int] is Some
            <==> lay[edges[j].1 as int] is Some)
}

/// While exploring the component of `s` from level `next`, after `k`
/// rounds: earlier vertices keep their layers, and the new ones are those
/// within `k` edges of `s`, at `next` plus their distance.
pub open spec fn explored(
    n: nat,
    edges: Seq<(usize, usize)>,
    l0: Seq<Option<usize>>,
    lay: Seq<Option<usize>>,
    s: int,
    next: int,
    k: nat,
) -> bool {
    &&& lay.len() == n
    &&& forall|x: int|
        0 <= x < n ==> #[trigger] lay[x] == if l0[x] is Some {
            l0[x]
        } else if within(n, edges, s, k, x) {
            Some((next + first_within(n, edges, s, x, 0)) as usize)
        } else {
            None
        }
    &&& forall|x: int| within(n, edges, s, k, x) ==> first_within(n, edges, s, x, 0) <= k
}

/// In round `k`, an unexplored vertex is joined to the frontier exactly
/// when it is `k + 1` edges from `s`.
proof fn lemma_frontier(
    n: nat,
    edges: Seq<(usize, usize)>,
    l0: Seq<Option<usize>>,
    lay: Seq<Option<usize>>,
    s: int,
    next: int,
    k: nat,
    level: usize,
    v: int,
)
    requires
        l0.len() == n,
        0 <= s < n,
        l0[s] is None,
        closed(n, edges, l0),
        level == next + k,
        forall|x: int| 0 <= x < n ==> (#[trigger] l0[x] matches Some(l) ==> l < next),
        0 <= next,
        next + k < usize::MAX,
        k < n,
        explored(n, edges, l0, lay, s, next, k),
        0 <= v < n,
        l0[v] is None,
        !within(n, edges, s, k, v),
    ensures
        (exists|i: int| #[trigger] hits(n, edges, lay, level, i, v)) == within(n, edges, s, k + 1, v),
{
    let fresh = |y: int| 0 <= y < n && l0[y] is None;
    assert forall|j: int|
        0 <= j < edges.len() && valid_edge(n, #[trigger] edges[j]) implies (fresh(edges[j].0 as int)
        == fresh(edges[j].1 as int)) by {}
    lemma_within_unfold(n, edges, s, k + 1, v);
    if exists|i: int| #[trigger] hits(n, edges, lay, level, i, v) {
        let i = choose|i: int| #[trigger] hits(n, edges, lay, level, i, v);
        let (a, b) = edges[i];
        let x = if lay[a as int] == Some(level) && b == v {
            a as int
        } else {
            b as int
        };
        assert(lay[x] == Some(level));
        if l0[x] is Some {
            assert(l0[x] == lay[x]);
        }
        assert(within(n, edges, s, k, x));
        assert(step(n, edges, s, k, i, v));
    }
    if within(n, edges, s, k + 1, v) {
        let j = choose|j: int| 0 <= j < edges.len() && #[trigger] step(n, edges, s, k, j, v);
        let (a, b) = edges[j];
        let x = if within(n, edges, s, k, a as int) && b == v {
            a as int
        } else {
            b as int
        };
        lemma_within_closed(n, edges, fresh, s, k, x);
        lemma_first_within_sound(n, edges, s, x, 0, k);
        let d = first_within(n, edges, s, x, 0);
        if d < k {
            lemma_within_mono(n, edges, s, d, (k - 1) as nat, x);
            lemma_within_unfold(n, edges, s, k, v);
            assert(step(n, edges, s, (k - 1) as nat, j, v));
        }
        assert(lay[x] == Some(level));
        assert(hits(n, edges, lay, level, j, v));
    }
}

/// Explore the component of the unassigned vertex `sd` from layer `next`,
/// round by round; returns how many rounds found new vertices.
fn explore(n: usize, edges: &[(usize, usize)], lay: &mut Vec<Option<usize>>, sd: usize, next: usize) -> (k: usize)
    requires
        old(lay)@.len() == n,
        sd < n,
        old(lay)@[sd as int] is None,
        closed(n as nat, edges@, old(lay)@),
        forall|x: int| 0 <= x < n ==> (#[trigger] old(lay)@[x] matches Some(l) ==> l < next),
        next <= count_some(old(lay)@),
    ensures
        explored(n as nat, edges@, old(lay)@, final(lay)@, sd as int, next as int, k as nat),
        next + k + 1 <= count_some(final(lay)@) <= n,
        exists|x: int|
            0 <= x < n && old(lay)@[x] is None && final(lay)@[x] == Some((next + k) as usize),
        forall|v: int| #[trigger] within(n as nat, edges@, sd as int, n as nat, v) == within(
            n as nat,
            edges@,
            sd as int,
            k as nat,
            v,
        ),
{
    let ghost nn = n as nat;
    let ghost es = edges@;
    let ghost l0 = lay@;
    proof {
        lemma_count_update(lay@, sd as int, next);
        lemma_count_le(lay@.update(sd as int, Some(next)));
    }
    lay.set(sd, Some(next));
    proof {
        assert(within(nn, es, sd as int, 0, sd as int));
        assert(first_within(nn, es, sd as int, sd as int, 0) == 0);
        assert forall|x: int| 0 <= x < n implies #[trigger] lay@[x] == if l0[x] is Some {
            l0[x]
        } else if within(nn, es, sd as int, 0, x) {
            Some((next + first_within(nn, es, sd as int, x, 0)) as usize)
        } else {
            None
        } by {}
    }
    proof {
        assert(lay@[sd as int] == Some((next + 0) as usize));
    }
    let mut k: usize = 0;
    loop
        invariant_except_break
            nn == n as nat,
            es == edges@,
            lay@.len() == n,
            l0.len() == n,
            sd < n,
            l0[sd as int] is None,
            closed(nn, es, l0),
            forall|x: int| 0 <= x < n ==> (#[trigger] l0[x] matches Some(l) ==> l < next),
            explored(nn, es, l0, lay@, sd as int, next as int, k as nat),
            next + k + 1 <= count_some(lay@) <= n,
            exists|x: int| 0 <= x < n && l0[x] is None && lay@[x] == Some((next + k) as usize),
        ensures
            nn == n as nat,
            es == edges@,
            explored(nn, es, l0, lay@, sd as int, next as int, k as nat),
            next + k + 1 <= count_some(lay@) <= n,
            exists|x: int| 0 <= x < n && l0[x] is None && lay@[x] == Some((next + k) as usize),
            forall|v: int| #[trigger] within(nn, es, sd as int, nn, v) == within(nn, es, sd as int, k as nat, v),
        decreases n - k,
    {
        let ghost before = lay@;
        let lvl = next + k;
        let changed = bfs_round(n, edges, lay, lvl);
        proof {
            lemma_count_le(lay@);
        }
        if !changed {
            proof {
                let fresh = |y: int| 0 <= y < n && l0[y] is None;
                assert forall|j: int|
                    0 <= j < es.len() && valid_edge(nn, #[trigger] es[j]) implies (fresh(es[j].0 as int)
                    == fresh(es[j].1 as int)) by {}
                assert forall|v: int| within(nn, es, sd as int, (k + 1) as nat, v) == within(
                    nn,
                    es,
                    sd as int,
                    k as nat,
                    v,
                ) by {
                    if within(nn, es, sd as int, k as nat, v) {
                        lemma_within_mono(nn, es, sd as int, k as nat, (k + 1) as nat, v);
                    } else if within(nn, es, sd as int, (k + 1) as nat, v) {
                        lemma_within_closed(nn, es, fresh, sd as int, (k + 1) as nat, v);
                        assert(before[v] is None);
                        lemma_frontier(nn, es, l0, before, sd as int, next as int, k as nat, lvl, v);
                        let i = choose|i: int| #[trigger] hits(nn, es, before, lvl, i, v);
                        assert(hits(nn, es, before, lvl, i, v));
                        assert(lay@[v] == Some((lvl + 1) as usize));
                        assert(false);
                    }
                }
                lemma_within_stable(nn, es, sd as int, k as nat, nn);
            }
            break;
        }
        proof {
            assert forall|x: int| 0 <= x < n implies #[trigger] lay@[x] == if l0[x] is Some {
                l0[x]
            } else if within(nn, es, sd as int, (k + 1) as nat, x) {
                Some((next + first_within(nn, es, sd as int, x, 0)) as usize)
            } else {
                None
            } by {
                assert(before[x] == if l0[x] is Some {
                    l0[x]
                } else if within(nn, es, sd as int, k as nat, x) {
                    Some((next + first_within(nn, es, sd as int, x, 0)) as usize)
                } else {
                    None
                });
                if l0[x] is None {
                    if within(nn, es, sd as int, k as nat, x) {
                        lemma_within_mono(nn, es, sd as int, k as nat, (k + 1) as nat, x);
                    } else {
                        lemma_frontier(nn, es, l0, before, sd as int, next as int, k as nat, lvl, x);
                        if within(nn, es, sd as int, (k + 1) as nat, x) {
                            lemma_first_within(nn, es, sd as int, x, (k + 1) as nat, 0);
                            let i = choose|i: int| #[trigger] hits(nn, es, before, lvl, i, x);
                            assert(hits(nn, es, before, lvl, i, x));
                            assert(lay@[x] == Some((lvl + 1) as usize));
                        } else {
                            assert(lay@[x] == before[x]);
                        }
                    }
                }
            }
            assert forall|x: int| within(nn, es, sd as int, (k + 1) as nat, x) implies first_within(
                nn,
                es,
                sd as int,
                x,
                0,
            ) <= k + 1 by {
                if !within(nn, es, sd as int, k as nat, x) {
                    lemma_first_within(nn, es, sd as int, x, (k + 1) as nat, 0);
                }
            }
            let w = choose|v: int|
                0 <= v < n && before[v] is None && lay@[v] == Some((lvl + 1) as usize);
            assert(l0[w] is None);
            assert(lay@[w] == Some((next + (k + 1)) as usize));
        }
        k = k + 1;
    }
    k
}

/// The layer of every vertex `0..n` (see `layer`).
pub fn layer_of(n: usize, edges: &[(usize, usize)]) -> (r: Vec<usize>)
    ensures
        r@.len() == n,
        forall|v: int| 0 <= v < n ==> r@[v] == layer(n as nat, edges@, v),
        forall|v: int| 0 <= v < n ==> r@[v] < n,
{
    let ghost nn = n as nat;
    let ghost es = edges@;
    let mut lay: Vec<Option<usize>> = Vec::new();
    let mut i: usize = 0;
    while i < n
        invariant
            i <= n,
            lay@.len() == i,
            forall|u: int| 0 <= u < i ==> #[trigger] lay@[u] is None,
        decreases n - i,
    {
        lay.push(None);
        i = i + 1;
    }
    proof {
        lemma_count_none(lay@);
        lemma_max_assigned(lay@, nn, -1);
    }
    let mut next: usize = 0;
    let mut sd: usize = 0;
    while sd < n
        invariant
            nn == n as nat,
            es == edges@,
            lay@.len() == n,
            sd <= n,
            forall|u: int| 0 <= u < n ==> (#[trigger] lay@[u] is Some <==> seed(nn, es, u) < sd),
            forall|u: int| 0 <= u < n ==> (#[trigger] lay@[u] matches Some(l) ==> l == layer(nn, es, u)),
            closed(nn, es, lay@),
            next as int == 1 + max_assigned(lay@, nn),
            next <= count_some(lay@) <= n,
        decreases n - sd,
    {
        let ghost l0 = lay@;
        let some_here = lay[sd].is_some();
        let ghost inside = |y: int| 0 <= y < n && l0[y] is Some;
        proof {
            assert forall|j: int|
                0 <= j < es.len() && valid_edge(nn, #[trigger] es[j]) implies (inside(es[j].0 as int)
                == inside(es[j].1 as int)) by {
                assert(l0[es[j].0 as int] is Some <==> l0[es[j].1 as int] is Some);
            }
            lemma_seed_le(nn, es, sd as nat, 0);
        }
        if !some_here {
            proof {
                // `sd` seeds its own component, whose base is `next`
                lemma_max_bounds(l0, nn);
                if sd > 0 {
                    lemma_deepest(nn, es, l0, sd as nat, nn);
                }
            }
            let k = explore(n, edges, &mut lay, sd, next);
            proof {
                assert(base(nn, es, sd as nat) == next);
                assert forall|u: int| 0 <= u < n implies (#[trigger] lay@[u] is Some <==> seed(nn, es, u)
                    < sd + 1) by {
                    assert(lay@[u] == if l0[u] is Some {
                        l0[u]
                    } else if within(nn, es, sd as int, k as nat, u) {
                        Some((next + first_within(nn, es, sd as int, u, 0)) as usize)
                    } else {
                        None
                    });
                    if l0[u] is None {
                        assert forall|w: nat| 0 <= w < sd implies !#[trigger] within(nn, es, w as int, nn, u) by {
                            lemma_seed_le(nn, es, w, 0);
                            if within(nn, es, w as int, nn, u) {
                                lemma_within_closed(nn, es, inside, w as int, nn, u);
                            }
                        }
                        if within(nn, es, sd as int, k as nat, u) {
                            assert(within(nn, es, sd as int, nn, u));
                            lemma_reacher(nn, es, u, 0, sd as nat);
                        } else {
                            assert(!within(nn, es, sd as int, nn, u));
                            lemma_reacher_above(nn, es, u, 0, sd as nat);
                        }
                    }
                }
                assert forall|u: int| 0 <= u < n implies (#[trigger] lay@[u] matches Some(l) ==> l
                    == layer(nn, es, u)) by {
                    if l0[u] is None && within(nn, es, sd as int, k as nat, u) {
                        assert(within(nn, es, sd as int, nn, u));
                        assert forall|w: nat| 0 <= w < sd implies !#[trigger] within(nn, es, w as int, nn, u) by {
                            lemma_seed_le(nn, es, w, 0);
                            if within(nn, es, w as int, nn, u) {
                                lemma_within_closed(nn, es, inside, w as int, nn, u);
                            }
                        }
                        lemma_reacher(nn, es, u, 0, sd as nat);
                        assert(seed(nn, es, u) == sd);
                    }
                }
                assert forall|j: int|
                    0 <= j < es.len() && valid_edge(nn, #[trigger] es[j]) implies (lay@[es[j].0 as int]
                    is Some <==> lay@[es[j].1 as int] is Some) by {
                    let (a, b) = es[j];
                    assert(lay@[a as int] == if l0[a as int] is Some {
                        l0[a as int]
                    } else if within(nn, es, sd as int, k as nat, a as int) {
                        Some((next + first_within(nn, es, sd as int, a as int, 0)) as usize)
                    } else {
                        None
                    });
                    assert(lay@[b as int] == if l0[b as int] is Some {
                        l0[b as int]
                    } else if within(nn, es, sd as int, k as nat, b as int) {
                        Some((next + first_within(nn, es, sd as int, b as int, 0)) as usize)
                    } else {
                        None
                    });
                    if l0[a as int] is None && l0[b as int] is None {
                        lemma_within_unfold(nn, es, sd as int, (k + 1) as nat, a as int);
                        lemma_within_unfold(nn, es, sd as int, (k + 1) as nat, b as int);
                        if within(nn, es, sd as int, k as nat, a as int) {
                            assert(step(nn, es, sd as int, k as nat, j, b as int));
                            lemma_within_mono(nn, es, sd as int, (k + 1) as nat, nn, b as int);
                        }
                        if within(nn, es, sd as int, k as nat, b as int) {
                            assert(step(nn, es, sd as int, k as nat, j, a as int));
                            lemma_within_mono(nn, es, sd as int, (k + 1) as nat, nn, a as int);
                        }
                    }
                }
                assert forall|u: int| 0 <= u < nn implies (#[trigger] lay@[u] matches Some(l) ==> l
                    <= next + k) by {
                    if l0[u] is None && within(nn, es, sd as int, k as nat, u) {
                    }
                }
                let x = choose|x: int| 0 <= x < n && l0[x] is None && lay@[x] == Some((next + k) as usize);
                lemma_max_assigned(lay@, nn, next + k);
            }
            next = next + k + 1;
        } else {
            proof {
                assert forall|u: int| 0 <= u < n implies (#[trigger] lay@[u] is Some <==> seed(nn, es, u)
                    < sd + 1) by {
                    lemma_seed_le(nn, es, u as nat, 0);
                    if seed(nn, es, u) == sd {
                        lemma_reacher_within(nn, es, u, 0);
                        lemma_within_closed(nn, es, inside, sd as int, nn, u);
                    }
                }
            }
        }
        sd = sd + 1;
    }
    proof {
        lemma_max_bounds(lay@, nn);
    }
    let mut out: Vec<usize> = Vec::new();
    let mut v: usize = 0;
    while v < n
        invariant
            nn == n as nat,
            es == edges@,
            v <= n,
            lay@.len() == n,
            out@.len() == v,
            forall|u: int| 0 <= u < n ==> (#[trigger] lay@[u] matches Some(l) ==> l < n),
            forall|u: int| 0 <= u < v ==> out@[u] < n,
            forall|u: int| 0 <= u < n ==> (#[trigger] lay@[u] is Some <==> seed(nn, es, u) < n),
            forall|u: int| 0 <= u < n ==> (#[trigger] lay@[u] matches Some(l) ==> l == layer(nn, es, u)),
            forall|u: int| 0 <= u < v ==> out@[u] == layer(nn, es, u),
        decreases n - v,
    {
        proof {
            lemma_seed_le(nn, es, v as nat, 0);
        }
        match lay[v] {
            Some(l) => out.push(l),
            None => {
                proof {
                    assert(false);
                }
                out.push(0)
            },
        }
        v = v + 1;
    }
    out
}

/// The deepest layer among vertices `u < m`, or -1.
pub open spec fn max_layer(n: nat, edges: Seq<(usize, usize)>, m: nat) -> int
    decreases m,
{
    if m == 0 {
        -1
    } else {
        let rest = max_layer(n, edges, (m - 1) as nat);
        let l = layer(n, edges, (m - 1) as int);
        if l > rest {
            l
        } else {
            rest
        }
    }
}

/// The vertices `u < m` on layer `k`, in increasing order.
pub open spec fn on_layer(n: nat, edges: Seq<(usize, usize)>, k: int, m: nat) -> Seq<usize>
    decreases m,
{
    if m == 0 {
        Seq::empty()
    } else {
        on_layer(n, edges, k, (m - 1) as nat) + if layer(n, edges, (m - 1) as int) == k {
            seq![(m - 1) as usize]
        } else {
            Seq::empty()
        }
    }
}

/// The layers of the tree layout of a graph on vertices `0..n` (see
/// `layer`): layer `k` lists its vertices in increasing order, from layer
/// 0 down to the deepest; no layers for no vertices.
pub fn tree_layers(n: usize, edges: &[(usize, usize)]) -> (r: Vec<Vec<usize>>)
    ensures
        r@.len() == 1 + max_layer(n as nat, edges@, n as nat),
        forall|k: int| 0 <= k < r@.len() ==> #[trigger] r@[k]@ == on_layer(n as nat, edges@, k, n as nat),
{
    let ghost nn = n as nat;
    let ghost es = edges@;
    let lay = layer_of(n, edges);
    // the deepest layer
    let mut depth: usize = 0;
    let mut any = false;
    let mut i: usize = 0;
    while i < n
        invariant
            nn == n as nat,
            es == edges@,
            i <= n,
            lay@.len() == n,
            forall|u: int| 0 <= u < n ==> lay@[u] == layer(nn, es, u),
            forall|u: int| 0 <= u < n ==> lay@[u] < n,
            any ==> depth < n,
            any == (i > 0),
            max_layer(nn, es, i as nat) == if any {
                depth as int
            } else {
                -1
            },
        decreases n - i,
    {
        if !any || lay[i] > depth {
            depth = lay[i];
        }
        any = true;
        i = i + 1;
    }
    let mut layers: Vec<Vec<usize>> = Vec::new();
    if !any {
        return layers;
    }
    let mut k: usize = 0;
    while k <= depth
        invariant
            k <= depth + 1,
            depth < usize::MAX,
            layers@.len() == k,
            forall|j: int| 0 <= j < k ==> #[trigger] layers@[j]@ == Seq::<usize>::empty(),
        decreases depth + 1 - k,
    {
        layers.push(Vec::new());
        k = k + 1;
    }
    let mut v: usize = 0;
    while v < n
        invariant
            nn == n as nat,
            es == edges@,
            v <= n,
            lay@.len() == n,
            forall|u: int| 0 <= u < n ==> lay@[u] == layer(nn, es, u),
            max_layer(nn, es, nn) == depth,
            layers@.len() == depth + 1,
            forall|j: int| 0 <= j < layers@.len() ==> #[trigger] layers@[j]@ == on_layer(nn, es, j, v as nat),
        decreases n - v,
    {
        proof {
            lemma_max_layer(nn, es, nn, v as nat);
        }
        let l = lay[v];
        let ghost before = layers@;
        layers[l].push(v);
        proof {
            assert forall|j: int| 0 <= j < layers@.len() implies #[trigger] layers@[j]@ == on_layer(
                nn,
                es,
                j,
                (v + 1) as nat,
            ) by {
                if j != l {
                    assert(layers@[j] == before[j]);
                }
            }
        }
        v = v + 1;
    }
    layers
}

/// No vertex lies below the deepest layer.
proof fn lemma_max_layer(n: nat, edges: Seq<(usize, usize)>, m: nat, u: nat)
    requires
        u < m,
    ensures
        layer(n, edges, u as int) <= max_layer(n, edges, m),
    decreases m,
{
    if u < m - 1 {
        lemma_max_layer(n, edges, (m - 1) as nat, u);
    }
}

/// Vertex 0 seeds the first component, so it sits on the top layer.
pub proof fn law_first_vertex_on_top(n: nat, edges: Seq<(usize, usize)>)
    requires
        n > 0,
    ensures
        layer(n, edges, 0) == 0,
{
    lemma_within_self(n, edges, 0, n);
    assert(within(n, edges, 0, 0, 0));
    assert(seed(n, edges, 0) == 0);
    assert(first_within(n, edges, 0, 0, 0) == 0);
}

/// Every layer of a component lies below the layers of the components
/// seeded before it: a vertex's layer is at least its component's base.
pub proof fn law_layer_at_least_base(n: nat, edges: Seq<(usize, usize)>, v: int)
    ensures
        layer(n, edges, v) >= base(n, edges, seed(n, edges, v)),
{
}

} // verus!
