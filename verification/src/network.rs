//! The discrete side of network graphs: which layout a name asks for,
//! edges given by vertex names turned into index pairs, which edges are
//! drawn, and the names of the vertex nodes.
use vstd::prelude::*;

use crate::tex_parts::views;
use crate::text::{chars_eq, decimal, is_lit, push_decimal, str_chars, string_from};

verus! {

/// How vertex positions are computed.
#[derive(Clone, Copy, Debug, PartialEq, Eq, Structural)]
pub enum GraphLayout {
    /// Evenly on a circle.
    Circular,
    /// Force-directed.
    Spring,
    /// Breadth-first layers, top to bottom.
    Tree,
}

/// The layout a name asks for: `"spring"`, `"tree"`, anything else is
/// circular.
pub open spec fn layout_named(s: Seq<char>) -> GraphLayout {
    if s == "spring"@ {
        GraphLayout::Spring
    } else if s == "tree"@ {
        GraphLayout::Tree
    } else {
        GraphLayout::Circular
    }
}

/// Reads a layout name.
pub fn layout_kind(layout: &str) -> (k: GraphLayout)
    ensures
        k == layout_named(layout@),
{
    let v = str_chars(layout);
    if is_lit(&v, "spring") {
        GraphLayout::Spring
    } else if is_lit(&v, "tree") {
        GraphLayout::Tree
    } else {
        GraphLayout::Circular
    }
}

/// The index of the last vertex called `v`, if any.
pub open spec fn last_index(names: Seq<Seq<char>>, v: Seq<char>) -> Option<int>
    decreases names.len(),
{
    if names.len() == 0 {
        None
    } else if names.last() == v {
        Some(names.len() - 1)
    } else {
        last_index(names.drop_last(), v)
    }
}

/// Whether both ends of an edge name a vertex.
pub open spec fn edge_known(names: Seq<Seq<char>>, e: (Seq<char>, Seq<char>)) -> bool {
    last_index(names, e.0) is Some && last_index(names, e.1) is Some
}

/// The first edge with an end that names no vertex.
pub open spec fn first_unknown(names: Seq<Seq<char>>, edges: Seq<(Seq<char>, Seq<char>)>) -> Option<int>
    decreases edges.len(),
{
    if edges.len() == 0 {
        None
    } else {
        match first_unknown(names, edges.drop_last()) {
            Some(i) => Some(i),
            None => if edge_known(names, edges.last()) {
                None
            } else {
                Some(edges.len() - 1)
            },
        }
    }
}

/// The edge by vertex indices (only meaningful for a known edge).
pub open spec fn edge_index(names: Seq<Seq<char>>, e: (Seq<char>, Seq<char>)) -> (usize, usize) {
    (
        last_index(names, e.0).unwrap_or(0) as usize,
        last_index(names, e.1).unwrap_or(0) as usize,
    )
}

/// The name reported for an unknown edge: its first end if that is
/// unknown, else its second.
pub open spec fn unknown_end(names: Seq<Seq<char>>, e: (Seq<char>, Seq<char>)) -> Seq<char> {
    if last_index(names, e.0) is None {
        e.0
    } else {
        e.1
    }
}

/// Edges with their ends as chars.
pub open spec fn named_edges(edges: Seq<(String, String)>) -> Seq<(Seq<char>, Seq<char>)> {
    edges.map_values(|e: (String, String)| (e.0@, e.1@))
}

/// The index of the last vertex called `v`.
fn find_last(names: &[String], v: &String) -> (r: Option<usize>)
    ensures
        match last_index(views(names@), v@) {
            Some(i) => r == Some(i as usize),
            None => r is None,
        },
{
    let ghost all = views(names@);
    let vc = str_chars(v.as_str());
    let mut i: usize = names.len();
    assert(all.take(i as int) =~= all);
    while i > 0
        invariant
            i <= names@.len(),
            all == views(names@),
            vc@ == v@,
            last_index(all, v@) == last_index(all.take(i as int), v@),
        decreases i,
    {
        let ghost t = all.take(i as int);
        proof {
            assert(t.drop_last() =~= all.take(i - 1));
            assert(t.last() == names@[i - 1]@);
        }
        if chars_eq(&str_chars(names[i - 1].as_str()), &vc) {
            return Some(i - 1);
        }
        i = i - 1;
    }
    None
}

/// Edges given by vertex names as index pairs. A name used by several
/// vertices stands for the last of them. The first edge (in order) with an
/// unknown end is refused with that end's name (its first end when both
/// are unknown).
pub fn index_edges(vertices: &[String], edges: &[(String, String)]) -> (r: Result<
    Vec<(usize, usize)>,
    String,
>)
    ensures
        match r {
            Ok(v) => first_unknown(views(vertices@), named_edges(edges@)) is None && v@
                == named_edges(edges@).map_values(
                |e: (Seq<char>, Seq<char>)| edge_index(views(vertices@), e),
            ),
            Err(m) => first_unknown(views(vertices@), named_edges(edges@)) matches Some(i) && m@
                == unknown_end(views(vertices@), named_edges(edges@)[i]),
        },
{
    let ghost names = views(vertices@);
    let ghost es = named_edges(edges@);
    let mut out: Vec<(usize, usize)> = Vec::new();
    let mut i: usize = 0;
    while i < edges.len()
        invariant
            i <= edges@.len(),
            names == views(vertices@),
            es == named_edges(edges@),
            first_unknown(names, es.take(i as int)) is None,
            out@ == es.take(i as int).map_values(
                |e: (Seq<char>, Seq<char>)| edge_index(names, e),
            ),
        decreases edges@.len() - i,
    {
        let ghost t = es.take(i + 1);
        proof {
            assert(t.drop_last() =~= es.take(i as int));
            assert(t.last() == es[i as int]);
            assert(es[i as int] == (edges@[i as int].0@, edges@[i as int].1@));
        }
        let a = match find_last(vertices, &edges[i].0) {
            Some(a) => a,
            None => {
                proof {
                    assert(first_unknown(names, t) == Some(i as int));
                    lemma_first_unknown_prefix(names, es, i + 1);
                }
                return Err(edges[i].0.clone());
            },
        };
        let b = match find_last(vertices, &edges[i].1) {
            Some(b) => b,
            None => {
                proof {
                    assert(first_unknown(names, t) == Some(i as int));
                    lemma_first_unknown_prefix(names, es, i + 1);
                }
                return Err(edges[i].1.clone());
            },
        };
        out.push((a, b));
        proof {
            assert(out@ =~= t.map_values(|e: (Seq<char>, Seq<char>)| edge_index(names, e)));
        }
        i = i + 1;
    }
    proof {
        assert(es.take(edges@.len() as int) =~= es);
    }
    Ok(out)
}

/// A first unknown edge found in a prefix is the first of the whole list.
proof fn lemma_first_unknown_prefix(
    names: Seq<Seq<char>>,
    edges: Seq<(Seq<char>, Seq<char>)>,
    m: int,
)
    requires
        0 <= m <= edges.len(),
        first_unknown(names, edges.take(m)) is Some,
    ensures
        first_unknown(names, edges) == first_unknown(names, edges.take(m)),
    decreases edges.len() - m,
{
    if m < edges.len() {
        let t = edges.take(m + 1);
        assert(t.drop_last() =~= edges.take(m));
        lemma_first_unknown_prefix(names, edges, m + 1);
    } else {
        assert(edges.take(m) =~= edges);
    }
}

/// The edges a graph draws: those whose ends are both vertices, in order.
pub open spec fn drawn(n: nat, edges: Seq<(usize, usize)>) -> Seq<(usize, usize)>
    decreases edges.len(),
{
    if edges.len() == 0 {
        Seq::empty()
    } else {
        let e = edges.last();
        let rest = drawn(n, edges.drop_last());
        if e.0 < n && e.1 < n {
            rest.push(e)
        } else {
            rest
        }
    }
}

/// Drops the edges with an end that is not one of the `n` vertices.
pub fn drawn_edges(n: usize, edges: &[(usize, usize)]) -> (r: Vec<(usize, usize)>)
    ensures
        r@ == drawn(n as nat, edges@),
{
    let mut out: Vec<(usize, usize)> = Vec::new();
    let mut i: usize = 0;
    while i < edges.len()
        invariant
            i <= edges@.len(),
            out@ == drawn(n as nat, edges@.take(i as int)),
        decreases edges@.len() - i,
    {
        proof {
            assert(edges@.take(i + 1).drop_last() =~= edges@.take(i as int));
        }
        let e = edges[i];
        if e.0 < n && e.1 < n {
            out.push(e);
        }
        i = i + 1;
    }
    proof {
        assert(edges@.take(edges@.len() as int) =~= edges@);
    }
    out
}

/// The name of the node of vertex `i`: `"vertex:i"`.
pub fn vertex_name(i: usize) -> (r: String)
    ensures
        r@ == "vertex:"@ + decimal(i as nat),
{
    let mut out = str_chars("vertex:");
    push_decimal(&mut out, i as u64);
    string_from(&out)
}

} // verus!
