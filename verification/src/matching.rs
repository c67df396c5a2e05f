//! Pairing for TransformMatching*: source and target nodes are grouped by a
//! key (a part's TeX source, or an outline's shape key), each group is
//! ordered left to right, and the groups are zipped. Unpaired nodes fade.
use vstd::multiset::Multiset;
use vstd::prelude::*;

use crate::scene::NodeId;
use crate::text::{chars_eq, str_chars};

verus! {

/// A node to match: its group key, the node, and its left-to-right rank
/// (nodes whose centers have the same x share a rank).
pub type Candidate = (String, NodeId, u64);

/// A candidate with its key as plain chars.
pub open spec fn cand_view(c: Candidate) -> (Seq<char>, NodeId, u64) {
    (c.0@, c.1, c.2)
}

/// Candidates with their keys as plain chars.
pub open spec fn cands_view(v: Seq<Candidate>) -> Seq<(Seq<char>, NodeId, u64)> {
    v.map_values(|c: Candidate| cand_view(c))
}

/// The distinct keys of `cs`, in order of first appearance, after those
/// already in `seen`.
pub open spec fn new_keys(seen: Seq<Seq<char>>, cs: Seq<(Seq<char>, NodeId, u64)>) -> Seq<Seq<char>>
    decreases cs.len(),
{
    if cs.len() == 0 {
        seen
    } else {
        let prev = new_keys(seen, cs.drop_last());
        if prev.contains(cs.last().0) {
            prev
        } else {
            prev.push(cs.last().0)
        }
    }
}

/// Group order: the source's keys in order of first appearance, then the
/// target's keys that the source lacks.
pub open spec fn key_order(src: Seq<(Seq<char>, NodeId, u64)>, dst: Seq<(Seq<char>, NodeId, u64)>) -> Seq<
    Seq<char>,
> {
    new_keys(new_keys(Seq::empty(), src), dst)
}

/// The `(node, rank)` entries of `cs` with key `k`, in order.
pub open spec fn members(cs: Seq<(Seq<char>, NodeId, u64)>, k: Seq<char>) -> Seq<(NodeId, u64)>
    decreases cs.len(),
{
    if cs.len() == 0 {
        Seq::empty()
    } else {
        members(cs.drop_last(), k) + if cs.last().0 == k {
            seq![(cs.last().1, cs.last().2)]
        } else {
            Seq::empty()
        }
    }
}

/// Number of leading entries of `s` ranked at most `r`.
pub open spec fn rank_prefix(s: Seq<(NodeId, u64)>, r: u64) -> nat
    decreases s.len(),
{
    if s.len() == 0 || s[0].1 > r {
        0
    } else {
        1 + rank_prefix(s.drop_first(), r)
    }
}

/// `s` stably sorted by rank: each entry goes after every earlier entry
/// ranked no higher.
pub open spec fn by_rank(s: Seq<(NodeId, u64)>) -> Seq<(NodeId, u64)>
    decreases s.len(),
{
    if s.len() == 0 {
        Seq::empty()
    } else {
        let sorted = by_rank(s.drop_last());
        sorted.insert(rank_prefix(sorted, s.last().1) as int, s.last())
    }
}

/// The nodes of a ranked list.
pub open spec fn ids_of(s: Seq<(NodeId, u64)>) -> Seq<NodeId> {
    s.map_values(|e: (NodeId, u64)| e.0)
}

/// The pairing: for each group in `keys` order, its sources and targets
/// (each ordered left to right) are zipped; the sources and the targets
/// left over go to the second and third lists.
pub open spec fn pairing(
    src: Seq<(Seq<char>, NodeId, u64)>,
    dst: Seq<(Seq<char>, NodeId, u64)>,
    keys: Seq<Seq<char>>,
) -> (Seq<(NodeId, NodeId)>, Seq<NodeId>, Seq<NodeId>)
    decreases keys.len(),
{
    if keys.len() == 0 {
        (Seq::empty(), Seq::empty(), Seq::empty())
    } else {
        let prev = pairing(src, dst, keys.drop_last());
        let s = ids_of(by_rank(members(src, keys.last())));
        let d = ids_of(by_rank(members(dst, keys.last())));
        let n = if s.len() < d.len() {
            s.len()
        } else {
            d.len()
        };
        (
            prev.0 + Seq::new(n, |i: int| (s[i], d[i])),
            prev.1 + s.skip(n as int),
            prev.2 + d.skip(n as int),
        )
    }
}

/// The nodes of a candidate list, in order.
pub open spec fn nodes(cs: Seq<(Seq<char>, NodeId, u64)>) -> Seq<NodeId> {
    cs.map_values(|c: (Seq<char>, NodeId, u64)| c.1)
}

/// The source side of each pair.
pub open spec fn firsts(p: Seq<(NodeId, NodeId)>) -> Seq<NodeId> {
    p.map_values(|q: (NodeId, NodeId)| q.0)
}

/// The target side of each pair.
pub open spec fn seconds(p: Seq<(NodeId, NodeId)>) -> Seq<NodeId> {
    p.map_values(|q: (NodeId, NodeId)| q.1)
}

/// The nodes of every group named in `keys`, counted together.
pub open spec fn grouped(cs: Seq<(Seq<char>, NodeId, u64)>, keys: Seq<Seq<char>>) -> Multiset<NodeId>
    decreases keys.len(),
{
    if keys.len() == 0 {
        Multiset::empty()
    } else {
        grouped(cs, keys.drop_last()).add(ids_of(members(cs, keys.last())).to_multiset())
    }
}

/// An empty sequence holds nothing.
proof fn lemma_empty_multiset<A>(s: Seq<A>)
    requires
        s.len() == 0,
    ensures
        s.to_multiset() == Multiset::<A>::empty(),
{
    broadcast use vstd::seq_lib::to_multiset_len;
    broadcast use vstd::multiset::lemma_multiset_empty_len;

    assert(s.to_multiset().len() == 0);
}

proof fn lemma_rank_prefix_le(s: Seq<(NodeId, u64)>, r: u64)
    ensures
        rank_prefix(s, r) <= s.len(),
    decreases s.len(),
{
    if s.len() > 0 && s[0].1 <= r {
        lemma_rank_prefix_le(s.drop_first(), r);
    }
}

/// Sorting by rank keeps the nodes, each as often as before.
proof fn lemma_by_rank_nodes(s: Seq<(NodeId, u64)>)
    ensures
        ids_of(by_rank(s)).to_multiset() == ids_of(s).to_multiset(),
    decreases s.len(),
{
    broadcast use vstd::seq_lib::group_to_multiset_ensures;

    if s.len() > 0 {
        let t = s.drop_last();
        let x = s.last();
        lemma_by_rank_nodes(t);
        let sorted = by_rank(t);
        let p = rank_prefix(sorted, x.1) as int;
        lemma_rank_prefix_le(sorted, x.1);
        assert(ids_of(sorted.insert(p, x)) =~= ids_of(sorted).insert(p, x.0));
        assert(ids_of(s) =~= ids_of(t).push(x.0));
    }
}

/// Zipping the first `n` entries of `s` with those of `d`, and leaving the
/// rest of both over, keeps every node of `s` and of `d`.
proof fn lemma_zip_keeps(s: Seq<NodeId>, d: Seq<NodeId>, n: int)
    requires
        0 <= n <= s.len(),
        n <= d.len(),
    ensures
        firsts(Seq::new(n as nat, |i: int| (s[i], d[i]))).to_multiset().add(
            s.skip(n).to_multiset(),
        ) == s.to_multiset(),
        seconds(Seq::new(n as nat, |i: int| (s[i], d[i]))).to_multiset().add(
            d.skip(n).to_multiset(),
        ) == d.to_multiset(),
{
    broadcast use vstd::seq_lib::lemma_multiset_commutative;

    let z = Seq::new(n as nat, |i: int| (s[i], d[i]));
    assert(firsts(z) =~= s.take(n));
    assert(seconds(z) =~= d.take(n));
    assert(s.take(n) + s.skip(n) =~= s);
    assert(d.take(n) + d.skip(n) =~= d);
}

/// Pairing the groups named in `keys` keeps every node of those groups:
/// each is paired or left over, as often as it occurs in them.
proof fn lemma_pairing_keeps(
    src: Seq<(Seq<char>, NodeId, u64)>,
    dst: Seq<(Seq<char>, NodeId, u64)>,
    keys: Seq<Seq<char>>,
)
    ensures
        firsts(pairing(src, dst, keys).0).to_multiset().add(pairing(src, dst, keys).1.to_multiset())
            == grouped(src, keys),
        seconds(pairing(src, dst, keys).0).to_multiset().add(pairing(src, dst, keys).2.to_multiset())
            == grouped(dst, keys),
    decreases keys.len(),
{
    broadcast use vstd::seq_lib::lemma_multiset_commutative;
    broadcast use vstd::multiset::group_multiset_axioms;

    if keys.len() == 0 {
        let p = pairing(src, dst, keys);
        lemma_empty_multiset(firsts(p.0));
        lemma_empty_multiset(seconds(p.0));
        lemma_empty_multiset(p.1);
        lemma_empty_multiset(p.2);
        assert(firsts(p.0).to_multiset().add(p.1.to_multiset()) =~= grouped(src, keys));
        assert(seconds(p.0).to_multiset().add(p.2.to_multiset()) =~= grouped(dst, keys));
    } else {
        let prev = pairing(src, dst, keys.drop_last());
        lemma_pairing_keeps(src, dst, keys.drop_last());
        let k = keys.last();
        let s = ids_of(by_rank(members(src, k)));
        let d = ids_of(by_rank(members(dst, k)));
        let n: int = if s.len() < d.len() {
            s.len() as int
        } else {
            d.len() as int
        };
        let z = Seq::new(n as nat, |i: int| (s[i], d[i]));
        lemma_zip_keeps(s, d, n);
        lemma_by_rank_nodes(members(src, k));
        lemma_by_rank_nodes(members(dst, k));
        let cur = pairing(src, dst, keys);
        assert(cur.0 == prev.0 + z);
        assert(cur.1 == prev.1 + s.skip(n));
        assert(cur.2 == prev.2 + d.skip(n));
        assert(firsts(prev.0 + z) =~= firsts(prev.0) + firsts(z));
        assert(seconds(prev.0 + z) =~= seconds(prev.0) + seconds(z));
        assert(firsts(cur.0).to_multiset().add(cur.1.to_multiset()) =~= grouped(src, keys));
        assert(seconds(cur.0).to_multiset().add(cur.2.to_multiset()) =~= grouped(dst, keys));
    }
}

/// One more candidate adds its node once to the groups, when its key is
/// among them (and the keys are distinct).
proof fn lemma_grouped_step(cs: Seq<(Seq<char>, NodeId, u64)>, keys: Seq<Seq<char>>)
    requires
        cs.len() > 0,
        keys.no_duplicates(),
    ensures
        grouped(cs, keys) == if keys.contains(cs.last().0) {
            grouped(cs.drop_last(), keys).insert(cs.last().1)
        } else {
            grouped(cs.drop_last(), keys)
        },
    decreases keys.len(),
{
    broadcast use vstd::seq_lib::lemma_multiset_commutative;
    broadcast use vstd::multiset::group_multiset_axioms;
    broadcast use vstd::seq_lib::group_to_multiset_ensures;

    let x = cs.last();
    let t = cs.drop_last();
    if keys.len() > 0 {
        let ks = keys.drop_last();
        let k = keys.last();
        assert(ks.no_duplicates());
        lemma_grouped_step(cs, ks);
        let m = members(cs, k);
        assert(m == members(t, k) + if x.0 == k {
            seq![(x.1, x.2)]
        } else {
            Seq::empty()
        });
        if x.0 == k {
            assert(ids_of(m) =~= ids_of(members(t, k)).push(x.1));
            if ks.contains(x.0) {
                let j = choose|j: int| 0 <= j < ks.len() && ks[j] == x.0;
                assert(keys[j] == keys[keys.len() - 1]);
            }
            assert(keys.contains(x.0)) by {
                assert(keys[keys.len() - 1] == x.0);
            }
        } else {
            assert(ids_of(m) =~= ids_of(members(t, k)));
            if keys.contains(x.0) {
                let j = choose|j: int| 0 <= j < keys.len() && keys[j] == x.0;
                assert(ks[j] == x.0);
            }
            if ks.contains(x.0) {
                let j = choose|j: int| 0 <= j < ks.len() && ks[j] == x.0;
                assert(keys[j] == x.0);
            }
        }
        assert(grouped(cs, keys) =~= if keys.contains(x.0) {
            grouped(t, keys).insert(x.1)
        } else {
            grouped(t, keys)
        });
    }
}

/// Distinct keys covering every candidate's key group all the nodes.
proof fn lemma_grouped_all(cs: Seq<(Seq<char>, NodeId, u64)>, keys: Seq<Seq<char>>)
    requires
        keys.no_duplicates(),
        forall|i: int| 0 <= i < cs.len() ==> keys.contains(#[trigger] cs[i].0),
    ensures
        grouped(cs, keys) == nodes(cs).to_multiset(),
    decreases cs.len(),
{
    broadcast use vstd::seq_lib::group_to_multiset_ensures;
    broadcast use vstd::multiset::group_multiset_axioms;

    if cs.len() == 0 {
        lemma_grouped_empty(keys);
        assert(cs =~= Seq::<(Seq<char>, NodeId, u64)>::empty());
        lemma_empty_multiset(nodes(cs));
    } else {
        let t = cs.drop_last();
        assert(forall|i: int| 0 <= i < t.len() ==> t[i] == cs[i]);
        lemma_grouped_all(t, keys);
        lemma_grouped_step(cs, keys);
        assert(keys.contains(cs[cs.len() - 1].0));
        assert(nodes(cs) =~= nodes(t).push(cs.last().1));
    }
}

/// No candidates, no nodes.
proof fn lemma_grouped_empty(keys: Seq<Seq<char>>)
    ensures
        grouped(Seq::empty(), keys) == Multiset::<NodeId>::empty(),
    decreases keys.len(),
{
    broadcast use vstd::multiset::group_multiset_axioms;
    broadcast use vstd::seq_lib::group_to_multiset_ensures;

    if keys.len() > 0 {
        lemma_grouped_empty(keys.drop_last());
        let m = members(Seq::<(Seq<char>, NodeId, u64)>::empty(), keys.last());
        lemma_empty_multiset(ids_of(m));
        assert(grouped(Seq::empty(), keys) =~= Multiset::<NodeId>::empty());
    }
}

/// `new_keys` keeps what was seen, adds every key of `cs`, and repeats
/// none.
proof fn lemma_new_keys(seen: Seq<Seq<char>>, cs: Seq<(Seq<char>, NodeId, u64)>)
    requires
        seen.no_duplicates(),
    ensures
        new_keys(seen, cs).no_duplicates(),
        forall|k: Seq<char>| seen.contains(k) ==> new_keys(seen, cs).contains(k),
        forall|i: int| 0 <= i < cs.len() ==> new_keys(seen, cs).contains(#[trigger] cs[i].0),
    decreases cs.len(),
{
    if cs.len() > 0 {
        let t = cs.drop_last();
        lemma_new_keys(seen, t);
        let prev = new_keys(seen, t);
        let x = cs.last().0;
        if !prev.contains(x) {
            let nxt = prev.push(x);
            assert forall|k: Seq<char>| prev.contains(k) implies nxt.contains(k) by {
                let j = choose|j: int| 0 <= j < prev.len() && prev[j] == k;
                assert(nxt[j] == k);
            }
            assert(nxt[nxt.len() - 1] == x);
        }
        assert forall|i: int| 0 <= i < cs.len() implies new_keys(seen, cs).contains(
            #[trigger] cs[i].0,
        ) by {
            if i < t.len() {
                assert(t[i] == cs[i]);
                assert(prev.contains(t[i].0));
            }
        }
    }
}

/// Transform-matching loses and doubles nothing: every source node is
/// either paired with a target or left over to fade out, exactly as often
/// as it occurs among the sources; likewise every target node is paired
/// or left over to fade in.
pub proof fn law_pairing_partitions(src: Seq<(Seq<char>, NodeId, u64)>, dst: Seq<(Seq<char>, NodeId, u64)>)
    ensures
        firsts(pairing(src, dst, key_order(src, dst)).0).to_multiset().add(
            pairing(src, dst, key_order(src, dst)).1.to_multiset(),
        ) == nodes(src).to_multiset(),
        seconds(pairing(src, dst, key_order(src, dst)).0).to_multiset().add(
            pairing(src, dst, key_order(src, dst)).2.to_multiset(),
        ) == nodes(dst).to_multiset(),
{
    let e = Seq::<Seq<char>>::empty();
    assert(e.no_duplicates());
    lemma_new_keys(e, src);
    let ks = new_keys(e, src);
    lemma_new_keys(ks, dst);
    let keys = key_order(src, dst);
    assert(forall|i: int| 0 <= i < src.len() ==> keys.contains(#[trigger] src[i].0)) by {
        assert forall|i: int| 0 <= i < src.len() implies keys.contains(#[trigger] src[i].0) by {
            assert(ks.contains(src[i].0));
        }
    }
    lemma_pairing_keeps(src, dst, keys);
    lemma_grouped_all(src, keys);
    lemma_grouped_all(dst, keys);
}

/// Every member of a group comes from a candidate with that key.
proof fn lemma_members_from(cs: Seq<(Seq<char>, NodeId, u64)>, k: Seq<char>, t: int)
    requires
        0 <= t < members(cs, k).len(),
    ensures
        exists|i: int|
            0 <= i < cs.len() && cs[i].0 == k && #[trigger] cs[i].1 == members(cs, k)[t].0,
    decreases cs.len(),
{
    let prev = members(cs.drop_last(), k);
    let x = cs.last();
    if t < prev.len() {
        lemma_members_from(cs.drop_last(), k, t);
        let i = choose|i: int|
            0 <= i < cs.drop_last().len() && cs.drop_last()[i].0 == k && #[trigger] cs.drop_last()[i].1
                == prev[t].0;
        assert(cs[i] == cs.drop_last()[i]);
        assert(members(cs, k)[t] == prev[t]);
    } else {
        assert(x.0 == k);
        assert(members(cs, k)[t] == (x.1, x.2));
        assert(cs[cs.len() - 1].1 == members(cs, k)[t].0);
    }
}

/// Sorting by rank keeps each node of the list (and adds none).
proof fn lemma_by_rank_from(s: Seq<(NodeId, u64)>, t: int)
    requires
        0 <= t < ids_of(by_rank(s)).len(),
    ensures
        exists|u: int| 0 <= u < s.len() && #[trigger] s[u].0 == ids_of(by_rank(s))[t],
{
    broadcast use vstd::seq_lib::group_to_multiset_ensures;

    lemma_by_rank_nodes(s);
    let a = ids_of(by_rank(s))[t];
    assert(ids_of(by_rank(s)).contains(a));
    assert(ids_of(by_rank(s)).to_multiset().count(a) > 0);
    assert(ids_of(s).to_multiset().count(a) > 0);
    assert(ids_of(s).contains(a));
    let u = choose|u: int| 0 <= u < ids_of(s).len() && ids_of(s)[u] == a;
    assert(s[u].0 == a);
}

/// A node among a group's sorted nodes belongs to a candidate with that key.
proof fn lemma_sorted_member_from(cs: Seq<(Seq<char>, NodeId, u64)>, k: Seq<char>, t: int)
    requires
        0 <= t < ids_of(by_rank(members(cs, k))).len(),
    ensures
        exists|i: int|
            0 <= i < cs.len() && cs[i].0 == k && #[trigger] cs[i].1 == ids_of(by_rank(members(cs, k)))[t],
{
    lemma_by_rank_from(members(cs, k), t);
    let m = members(cs, k);
    let u = choose|u: int| 0 <= u < m.len() && #[trigger] m[u].0 == ids_of(by_rank(m))[t];
    lemma_members_from(cs, k, u);
}

/// Whether some source with node `a` and some target with node `b` share a
/// key.
pub open spec fn same_key_nodes(
    src: Seq<(Seq<char>, NodeId, u64)>,
    dst: Seq<(Seq<char>, NodeId, u64)>,
    a: NodeId,
    b: NodeId,
) -> bool {
    exists|i: int, j: int|
        0 <= i < src.len() && 0 <= j < dst.len() && #[trigger] src[i].1 == a && #[trigger] dst[j].1 == b
            && src[i].0 == dst[j].0
}

proof fn lemma_pairs_share_keys(
    src: Seq<(Seq<char>, NodeId, u64)>,
    dst: Seq<(Seq<char>, NodeId, u64)>,
    keys: Seq<Seq<char>>,
)
    ensures
        forall|p: int|
            0 <= p < pairing(src, dst, keys).0.len() ==> same_key_nodes(
                src,
                dst,
                #[trigger] pairing(src, dst, keys).0[p].0,
                pairing(src, dst, keys).0[p].1,
            ),
    decreases keys.len(),
{
    if keys.len() > 0 {
        lemma_pairs_share_keys(src, dst, keys.drop_last());
        let prev = pairing(src, dst, keys.drop_last());
        let k = keys.last();
        let s = ids_of(by_rank(members(src, k)));
        let d = ids_of(by_rank(members(dst, k)));
        let n: int = if s.len() < d.len() {
            s.len() as int
        } else {
            d.len() as int
        };
        let z = Seq::new(n as nat, |i: int| (s[i], d[i]));
        let cur = pairing(src, dst, keys).0;
        assert(cur == prev.0 + z);
        assert forall|p: int| 0 <= p < cur.len() implies same_key_nodes(
            src,
            dst,
            #[trigger] cur[p].0,
            cur[p].1,
        ) by {
            if p < prev.0.len() {
                assert(cur[p] == prev.0[p]);
            } else {
                let q = p - prev.0.len();
                assert(cur[p] == (s[q], d[q]));
                lemma_sorted_member_from(src, k, q);
                lemma_sorted_member_from(dst, k, q);
                let i = choose|i: int|
                    0 <= i < src.len() && src[i].0 == k && #[trigger] src[i].1 == s[q];
                let j = choose|j: int|
                    0 <= j < dst.len() && dst[j].0 == k && #[trigger] dst[j].1 == d[q];
                assert(src[i].1 == cur[p].0 && dst[j].1 == cur[p].1 && src[i].0 == dst[j].0);
            }
        }
    }
}

/// Transform-matching only pairs like with like: each pair joins a source
/// and a target whose candidates carry the same key (the same TeX part,
/// or the same outline shape).
pub proof fn law_pairs_share_keys(src: Seq<(Seq<char>, NodeId, u64)>, dst: Seq<(Seq<char>, NodeId, u64)>)
    ensures
        forall|p: int|
            0 <= p < pairing(src, dst, key_order(src, dst)).0.len() ==> same_key_nodes(
                src,
                dst,
                #[trigger] pairing(src, dst, key_order(src, dst)).0[p].0,
                pairing(src, dst, key_order(src, dst)).0[p].1,
            ),
{
    lemma_pairs_share_keys(src, dst, key_order(src, dst));
}

/// Whether two keys are equal.
fn same_key(a: &String, b: &String) -> (r: bool)
    ensures
        r == (a@ == b@),
{
    chars_eq(&str_chars(a.as_str()), &str_chars(b.as_str()))
}

/// Whether `k` is among `keys`.
fn has_key(keys: &Vec<String>, k: &String) -> (r: bool)
    ensures
        r == keys@.map_values(|s: String| s@).contains(k@),
{
    let ghost vs = keys@.map_values(|s: String| s@);
    let mut i: usize = 0;
    while i < keys.len()
        invariant
            i <= keys@.len(),
            vs == keys@.map_values(|s: String| s@),
            forall|j: int| 0 <= j < i ==> vs[j] != k@,
        decreases keys@.len() - i,
    {
        if same_key(&keys[i], k) {
            proof {
                assert(vs[i as int] == k@);
            }
            return true;
        }
        i = i + 1;
    }
    false
}

/// Append the new keys of `cs` to `keys` (see `new_keys`).
fn push_new_keys(keys: &mut Vec<String>, cs: &[Candidate])
    ensures
        final(keys)@.map_values(|s: String| s@) == new_keys(
            old(keys)@.map_values(|s: String| s@),
            cands_view(cs@),
        ),
{
    let ghost start = keys@.map_values(|s: String| s@);
    let mut i: usize = 0;
    while i < cs.len()
        invariant
            i <= cs@.len(),
            start == old(keys)@.map_values(|s: String| s@),
            keys@.map_values(|s: String| s@) == new_keys(start, cands_view(cs@.subrange(0, i as int))),
        decreases cs@.len() - i,
    {
        proof {
            let p = cands_view(cs@.subrange(0, i + 1));
            assert(p.drop_last() =~= cands_view(cs@.subrange(0, i as int)));
            assert(p.last() == cand_view(cs@[i as int]));
        }
        if !has_key(keys, &cs[i].0) {
            let ghost before = keys@;
            keys.push(cs[i].0.clone());
            proof {
                assert(keys@.map_values(|s: String| s@) =~= before.map_values(|s: String| s@).push(
                    cs@[i as int].0@,
                ));
            }
        }
        i = i + 1;
    }
    proof {
        assert(cs@.subrange(0, cs@.len() as int) =~= cs@);
    }
}

/// The `(node, rank)` entries of `cs` with key `k`, stably sorted by rank.
fn sorted_members(cs: &[Candidate], k: &String) -> (r: Vec<(NodeId, u64)>)
    ensures
        r@ == by_rank(members(cands_view(cs@), k@)),
{
    let mut out: Vec<(NodeId, u64)> = Vec::new();
    let mut i: usize = 0;
    while i < cs.len()
        invariant
            i <= cs@.len(),
            out@ == by_rank(members(cands_view(cs@.subrange(0, i as int)), k@)),
        decreases cs@.len() - i,
    {
        let ghost m0 = members(cands_view(cs@.subrange(0, i as int)), k@);
        proof {
            let p = cands_view(cs@.subrange(0, i + 1));
            assert(p.drop_last() =~= cands_view(cs@.subrange(0, i as int)));
            assert(p.last() == cand_view(cs@[i as int]));
        }
        if same_key(&cs[i].0, k) {
            let e = (cs[i].1, cs[i].2);
            let mut pos: usize = 0;
            proof {
                assert(out@.skip(0) =~= out@);
            }
            while pos < out.len() && out[pos].1 <= e.1
                invariant
                    pos <= out@.len(),
                    rank_prefix(out@, e.1) == pos + rank_prefix(out@.skip(pos as int), e.1),
                decreases out@.len() - pos,
            {
                proof {
                    let t = out@.skip(pos as int);
                    assert(t[0] == out@[pos as int]);
                    assert(t.drop_first() =~= out@.skip(pos + 1));
                }
                pos = pos + 1;
            }
            proof {
                let t = out@.skip(pos as int);
                if pos < out@.len() {
                    assert(t[0] == out@[pos as int]);
                }
                assert(rank_prefix(t, e.1) == 0);
                let m1 = members(cands_view(cs@.subrange(0, i + 1)), k@);
                assert(m1 =~= m0.push(e));
                assert(m1.drop_last() =~= m0);
            }
            out.insert(pos, e);
        } else {
            proof {
                let m1 = members(cands_view(cs@.subrange(0, i + 1)), k@);
                assert(m1 =~= m0);
            }
        }
        i = i + 1;
    }
    proof {
        assert(cs@.subrange(0, cs@.len() as int) =~= cs@);
    }
    out
}

/// Pair sources with targets by key (see `pairing`): returns the pairs,
/// the unpaired sources and the unpaired targets. Groups come in order of
/// first appearance (source keys, then target-only keys); within a group,
/// the i-th source from the left pairs with the i-th target from the left.
pub fn pair_by_key(src: &[Candidate], dst: &[Candidate]) -> (r: (
    Vec<(NodeId, NodeId)>,
    Vec<NodeId>,
    Vec<NodeId>,
))
    ensures
        (r.0@, r.1@, r.2@) == pairing(
            cands_view(src@),
            cands_view(dst@),
            key_order(cands_view(src@), cands_view(dst@)),
        ),
{
    let mut keys: Vec<String> = Vec::new();
    proof {
        assert(keys@.map_values(|s: String| s@) =~= Seq::<Seq<char>>::empty());
    }
    push_new_keys(&mut keys, src);
    push_new_keys(&mut keys, dst);
    let ghost sv = cands_view(src@);
    let ghost dv = cands_view(dst@);
    let ghost kv = keys@.map_values(|s: String| s@);
    let mut pairs: Vec<(NodeId, NodeId)> = Vec::new();
    let mut extra_src: Vec<NodeId> = Vec::new();
    let mut extra_dst: Vec<NodeId> = Vec::new();
    let mut j: usize = 0;
    while j < keys.len()
        invariant
            j <= keys@.len(),
            sv == cands_view(src@),
            dv == cands_view(dst@),
            kv == keys@.map_values(|s: String| s@),
            kv == key_order(sv, dv),
            (pairs@, extra_src@, extra_dst@) == pairing(sv, dv, kv.subrange(0, j as int)),
        decreases keys@.len() - j,
    {
        let s = sorted_members(src, &keys[j]);
        let d = sorted_members(dst, &keys[j]);
        let n = if s.len() < d.len() {
            s.len()
        } else {
            d.len()
        };
        let ghost p0 = pairs@;
        let ghost e0 = extra_src@;
        let ghost f0 = extra_dst@;
        let mut i: usize = 0;
        while i < n
            invariant
                n <= s@.len(),
                n <= d@.len(),
                i <= n,
                pairs@ == p0 + Seq::new(i as nat, |t: int| (s@[t].0, d@[t].0)),
            decreases n - i,
        {
            pairs.push((s[i].0, d[i].0));
            proof {
                assert(pairs@ =~= p0 + Seq::new((i + 1) as nat, |t: int| (s@[t].0, d@[t].0)));
            }
            i = i + 1;
        }
        let mut a: usize = n;
        while a < s.len()
            invariant
                n <= a <= s@.len(),
                extra_src@ == e0 + ids_of(s@).subrange(n as int, a as int),
            decreases s@.len() - a,
        {
            extra_src.push(s[a].0);
            proof {
                assert(extra_src@ =~= e0 + ids_of(s@).subrange(n as int, a + 1));
            }
            a = a + 1;
        }
        let mut b: usize = n;
        while b < d.len()
            invariant
                n <= b <= d@.len(),
                extra_dst@ == f0 + ids_of(d@).subrange(n as int, b as int),
            decreases d@.len() - b,
        {
            extra_dst.push(d[b].0);
            proof {
                assert(extra_dst@ =~= f0 + ids_of(d@).subrange(n as int, b + 1));
            }
            b = b + 1;
        }
        proof {
            let ks = kv.subrange(0, j + 1);
            assert(ks.drop_last() =~= kv.subrange(0, j as int));
            assert(ks.last() == keys@[j as int]@);
            let si = ids_of(s@);
            let di = ids_of(d@);
            assert(pairs@ =~= p0 + Seq::new(n as nat, |t: int| (si[t], di[t])));
            assert(extra_src@ =~= e0 + si.skip(n as int));
            assert(extra_dst@ =~= f0 + di.skip(n as int));
        }
        j = j + 1;
    }
    proof {
        assert(kv.subrange(0, kv.len() as int) =~= kv);
    }
    (pairs, extra_src, extra_dst)
}

} // verus!
