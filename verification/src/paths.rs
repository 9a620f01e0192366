//! Walks through a graph: what a path is, what it weighs, and what it means
//! for one vertex to be reachable from another.

use crate::edge::Edge;
use crate::graph::Graph;
use vstd::prelude::*;
use vstd::set_lib::lemma_len_subset;

verus! {

/// `p` is a walk through `g` that leads from `s` to `t`: a chain of edges of
/// the graph, each starting where the one before it ends. The empty walk
/// leads from any vertex to itself.
pub open spec fn is_path(g: Graph, p: Seq<Edge>, s: u32, t: u32) -> bool {
    &&& forall|i: int| 0 <= i < p.len() ==> g.has_edge(#[trigger] p[i])
    &&& forall|i: int| 0 <= i < p.len() - 1 ==> (#[trigger] p[i]).to == p[i + 1].from
    &&& if p.len() == 0 {
        s == t
    } else {
        p[0].from == s && p.last().to == t
    }
}

/// Some walk through `g` leads from `s` to `t`.
pub open spec fn reachable(g: Graph, s: u32, t: u32) -> bool {
    exists|p: Seq<Edge>| is_path(g, p, s, t)
}

/// `n` is the least number of edges on any walk from `s` to `t`.
pub open spec fn hop_distance(g: Graph, s: u32, t: u32, n: nat) -> bool {
    &&& exists|p: Seq<Edge>| is_path(g, p, s, t) && p.len() == n
    &&& forall|q: Seq<Edge>| is_path(g, q, s, t) ==> n <= q.len()
}

/// The total cost of the edges of `p`.
pub open spec fn path_weight(p: Seq<Edge>) -> nat
    decreases p.len(),
{
    if p.len() == 0 {
        0
    } else {
        path_weight(p.drop_last()) + p.last().cost()
    }
}

/// The edge stored at place `k` of the vertex at position `i` is an edge of
/// the graph that leaves that vertex.
pub proof fn lemma_edge_at(g: Graph, i: int, k: int)
    requires
        g.wf(),
        0 <= i < g.vertices().len(),
        0 <= k < g.edges_of(i).len(),
    ensures
        g.has_edge(g.edges_of(i)[k]),
        g.edges_of(i)[k].from == g.vertices()[i],
        g.out(g.vertices()[i]) == g.edges_of(i),
        g.vertices().contains(g.edges_of(i)[k].to),
{
    g.lemma_position_unique(g.vertices()[i], i);
}

/// Both ends of an edge of a well-formed graph are vertices of it.
pub proof fn lemma_edge_ends(g: Graph, e: Edge)
    requires
        g.wf(),
        g.has_edge(e),
    ensures
        g.vertices().contains(e.from),
        g.vertices().contains(e.to),
        g.out(e.from).contains(e),
{
    let i = g.vertices().index_of(e.from);
    let k = choose|k: int| 0 <= k < g.out(e.from).len() && g.out(e.from)[k] == e;
    assert(g.edges_of(i)[k] == e);
}

/// A walk that is followed by an edge leaving its end is a walk to that
/// edge's target, one edge longer and heavier by the edge's cost.
pub proof fn lemma_path_extend(g: Graph, p: Seq<Edge>, s: u32, e: Edge)
    requires
        is_path(g, p, s, e.from),
        g.has_edge(e),
    ensures
        is_path(g, p.push(e), s, e.to),
        path_weight(p.push(e)) == path_weight(p) + e.cost(),
{
    let q = p.push(e);
    assert forall|i: int| 0 <= i < q.len() implies g.has_edge(#[trigger] q[i]) by {
        if i < p.len() {
            assert(q[i] == p[i]);
        }
    }
    assert forall|i: int| 0 <= i < q.len() - 1 implies (#[trigger] q[i]).to == q[i + 1].from by {
        if i < p.len() - 1 {
            assert(q[i] == p[i]);
            assert(q[i + 1] == p[i + 1]);
        } else {
            assert(q[i] == p.last());
        }
    }
    if p.len() > 0 {
        assert(q[0] == p[0]);
    }
    assert(q.drop_last() =~= p);
}

/// A non-empty walk without its last edge is a walk to that edge's source.
pub proof fn lemma_path_prefix(g: Graph, p: Seq<Edge>, s: u32, t: u32)
    requires
        is_path(g, p, s, t),
        p.len() > 0,
    ensures
        is_path(g, p.drop_last(), s, p.last().from),
        g.has_edge(p.last()),
        p.last().to == t,
        path_weight(p) == path_weight(p.drop_last()) + p.last().cost(),
{
    let q = p.drop_last();
    assert forall|i: int| 0 <= i < q.len() implies g.has_edge(#[trigger] q[i]) by {
        assert(q[i] == p[i]);
    }
    assert forall|i: int| 0 <= i < q.len() - 1 implies (#[trigger] q[i]).to == q[i + 1].from by {
        assert(q[i] == p[i]);
        assert(q[i + 1] == p[i + 1]);
    }
    if q.len() > 0 {
        assert(q[0] == p[0]);
        assert(q.last() == p[p.len() - 2]);
        assert(p[p.len() - 2].to == p[p.len() - 2 + 1].from);
    }
}

/// A walk that begins with the edge `e` and goes on along `p`.
pub proof fn lemma_path_prepend(g: Graph, e: Edge, p: Seq<Edge>, t: u32)
    requires
        g.has_edge(e),
        is_path(g, p, e.to, t),
    ensures
        is_path(g, seq![e] + p, e.from, t),
{
    let q = seq![e] + p;
    assert forall|i: int| 0 <= i < q.len() implies g.has_edge(#[trigger] q[i]) by {
        if i > 0 {
            assert(q[i] == p[i - 1]);
        }
    }
    assert forall|i: int| 0 <= i < q.len() - 1 implies (#[trigger] q[i]).to == q[i + 1].from by {
        assert(q[i + 1] == p[i]);
        if i > 0 {
            assert(q[i] == p[i - 1]);
        }
    }
    if p.len() > 0 {
        assert(q.last() == p.last());
    }
}

/// The walk `p` from `s` never touches a vertex of `blocked`.
pub open spec fn avoids(p: Seq<Edge>, s: u32, blocked: Seq<u32>) -> bool {
    &&& !blocked.contains(s)
    &&& forall|i: int| 0 <= i < p.len() ==> !blocked.contains((#[trigger] p[i]).to)
}

/// Some walk leads from `s` to `t` without touching a vertex of `blocked`.
pub open spec fn reachable_avoiding(g: Graph, blocked: Seq<u32>, s: u32, t: u32) -> bool {
    exists|p: Seq<Edge>| is_path(g, p, s, t) && avoids(p, s, blocked)
}

/// With nothing blocked, avoiding walks are just walks.
pub proof fn lemma_nothing_blocked(g: Graph, s: u32, t: u32)
    ensures
        reachable_avoiding(g, Seq::<u32>::empty(), s, t) == reachable(g, s, t),
{
    if reachable(g, s, t) {
        let p = choose|p: Seq<Edge>| is_path(g, p, s, t);
        assert(avoids(p, s, Seq::<u32>::empty()));
    }
}

/// What can be reached from the target of an edge while avoiding a larger set
/// can be reached from the edge's source while avoiding a smaller one that
/// does not hold the source.
pub proof fn lemma_avoiding_through_edge(
    g: Graph,
    small: Seq<u32>,
    large: Seq<u32>,
    e: Edge,
    v: u32,
)
    requires
        g.has_edge(e),
        !small.contains(e.from),
        forall|x: u32| small.contains(x) ==> large.contains(x),
        reachable_avoiding(g, large, e.to, v),
    ensures
        reachable_avoiding(g, small, e.from, v),
{
    let p = choose|p: Seq<Edge>| is_path(g, p, e.to, v) && avoids(p, e.to, large);
    lemma_path_prepend(g, e, p, v);
    let q = seq![e] + p;
    assert forall|i: int| 0 <= i < q.len() implies !small.contains((#[trigger] q[i]).to) by {
        if i > 0 {
            assert(q[i] == p[i - 1]);
        }
    }
    assert(is_path(g, q, e.from, v) && avoids(q, e.from, small));
}

/// Only a vertex of the graph, or the start itself, can be reached.
pub proof fn lemma_path_stays_in_graph(g: Graph, p: Seq<Edge>, s: u32, t: u32)
    requires
        g.wf(),
        is_path(g, p, s, t),
    ensures
        p.len() == 0 ==> s == t,
        p.len() > 0 ==> g.vertices().contains(s) && g.vertices().contains(t),
{
    if p.len() > 0 {
        lemma_edge_ends(g, p[0]);
        lemma_edge_ends(g, p.last());
    }
}

/// Distinct vertices of a graph are no more than the graph has.
pub proof fn lemma_distinct_vertices_bounded(g: Graph, s: Seq<u32>)
    requires
        g.wf(),
        s.no_duplicates(),
        forall|i: int| 0 <= i < s.len() ==> g.vertices().contains(#[trigger] s[i]),
    ensures
        s.len() <= g.vertices().len(),
{
    broadcast use vstd::seq_lib::seq_to_set_is_finite;

    s.unique_seq_to_set();
    g.vertices().unique_seq_to_set();
    assert(s.to_set().subset_of(g.vertices().to_set())) by {
        assert forall|v: u32| s.to_set().contains(v) implies g.vertices().to_set().contains(v) by {
            let i = choose|i: int| 0 <= i < s.len() && s[i] == v;
            assert(g.vertices().contains(s[i]));
        }
    }
    lemma_len_subset(s.to_set(), g.vertices().to_set());
}

/// The weight of two walks laid end to end is the sum of their weights.
pub proof fn lemma_weight_concat(a: Seq<Edge>, b: Seq<Edge>)
    ensures
        path_weight(a + b) == path_weight(a) + path_weight(b),
    decreases b.len(),
{
    if b.len() == 0 {
        assert(a + b =~= a);
    } else {
        lemma_weight_concat(a, b.drop_last());
        assert((a + b).drop_last() =~= a + b.drop_last());
        assert((a + b).last() == b.last());
    }
}

/// The vertices that the walk `p` from `s` passes, `s` first.
pub open spec fn stops(p: Seq<Edge>, s: u32) -> Seq<u32> {
    Seq::new(
        p.len() + 1,
        |i: int|
            if i == 0 {
                s
            } else {
                p[i - 1].to
            },
    )
}

/// A walk that passes a vertex twice stays a walk between the same ends, and
/// gets no heavier, when the part between the two visits is cut out.
pub proof fn lemma_cut_loop(g: Graph, p: Seq<Edge>, s: u32, t: u32, a: int, b: int)
    requires
        is_path(g, p, s, t),
        0 <= a < b <= p.len(),
        stops(p, s)[a] == stops(p, s)[b],
    ensures
        is_path(g, p.subrange(0, a) + p.subrange(b, p.len() as int), s, t),
        path_weight(p.subrange(0, a) + p.subrange(b, p.len() as int)) <= path_weight(p),
        (p.subrange(0, a) + p.subrange(b, p.len() as int)).len() < p.len(),
{
    let head = p.subrange(0, a);
    let mid = p.subrange(a, b);
    let tail = p.subrange(b, p.len() as int);
    let q = head + tail;
    assert(p =~= head + mid + tail);
    lemma_weight_concat(head + mid, tail);
    lemma_weight_concat(head, mid);
    lemma_weight_concat(head, tail);
    assert forall|i: int| 0 <= i < q.len() implies g.has_edge(#[trigger] q[i]) by {
        if i < a {
            assert(q[i] == p[i]);
        } else {
            assert(q[i] == p[i - a + b]);
        }
    }
    assert forall|i: int| 0 <= i < q.len() - 1 implies (#[trigger] q[i]).to == q[i + 1].from by {
        if i + 1 < a {
            assert(q[i] == p[i]);
            assert(q[i + 1] == p[i + 1]);
        } else if i < a {
            assert(q[i] == p[a - 1]);
            assert(q[i + 1] == p[b]);
            assert(stops(p, s)[a] == p[a - 1].to);
            assert(stops(p, s)[b] == p[b - 1].to);
            assert(p[b - 1].to == p[b - 1 + 1].from);
        } else {
            assert(q[i] == p[i - a + b]);
            assert(q[i + 1] == p[i - a + b + 1]);
        }
    }
    if q.len() == 0 {
        assert(a == 0 && b == p.len());
        assert(stops(p, s)[0] == s);
        assert(stops(p, s)[b] == p[b - 1].to);
    } else {
        if a > 0 {
            assert(q[0] == p[0]);
        } else {
            assert(q[0] == p[b]);
            assert(stops(p, s)[0] == s);
            assert(stops(p, s)[b] == p[b - 1].to);
            assert(p[b - 1].to == p[b - 1 + 1].from);
        }
        if b < p.len() {
            assert(q.last() == p.last());
        } else {
            assert(q.last() == p[a - 1]);
            assert(stops(p, s)[a] == p[a - 1].to);
            assert(stops(p, s)[b] == p[b - 1].to);
        }
    }
}

/// Between any two vertices that a walk joins there is a walk, no heavier,
/// with no more edges than the graph has vertices.
pub proof fn lemma_shorten(g: Graph, p: Seq<Edge>, s: u32, t: u32) -> (q: Seq<Edge>)
    requires
        g.wf(),
        is_path(g, p, s, t),
    ensures
        is_path(g, q, s, t),
        path_weight(q) <= path_weight(p),
        q.len() <= g.vertices().len(),
    decreases p.len(),
{
    if p.len() <= g.vertices().len() {
        p
    } else {
        let c = stops(p, s);
        assert forall|i: int| 0 <= i < c.len() implies g.vertices().contains(#[trigger] c[i]) by {
            if i == 0 {
                lemma_edge_ends(g, p[0]);
            } else {
                lemma_edge_ends(g, p[i - 1]);
            }
        }
        if c.no_duplicates() {
            lemma_distinct_vertices_bounded(g, c);
            assert(false);
        }
        let (a, b) = choose|a: int, b: int|
            0 <= a < c.len() && 0 <= b < c.len() && a != b && c[a] == c[b];
        let (lo, hi) = if a < b {
            (a, b)
        } else {
            (b, a)
        };
        lemma_cut_loop(g, p, s, t, lo, hi);
        lemma_shorten(g, p.subrange(0, lo) + p.subrange(hi, p.len() as int), s, t)
    }
}

} // verus!
