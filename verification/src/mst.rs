//! Minimum spanning trees: Kruskal's and Prim's algorithms.

use crate::distance::Distance;
use crate::edge::{Edge, Edges};
use crate::graph::{all_edges, edges_upto, Graph};
use crate::heap::{holds, risen, slot, sunk, PositionTrackingMinHeap, VertAttributes};
use crate::shortest_path::{heap_filled, initial_heap};
use crate::paths::{lemma_edge_at, lemma_edge_ends};
use std::collections::HashMap;
use vstd::prelude::*;
use vstd::std_specs::hash::group_hash_axioms;

verus! {

broadcast use group_hash_axioms;

/// `kept` holds an edge between the endpoints of `e`, in either direction,
/// with the weight of `e`.
pub open spec fn has_link(kept: Seq<Edge>, e: Edge) -> bool {
    exists|j: int| 0 <= j < kept.len() && (#[trigger] kept[j]).spec_same_ignore_direction(e)
}

/// The edges of `s` without those that repeat an earlier one, in the same or
/// in the opposite direction.
pub open spec fn distinct_links(s: Seq<Edge>) -> Seq<Edge>
    decreases s.len(),
{
    if s.len() == 0 {
        Seq::empty()
    } else {
        let rest = distinct_links(s.drop_last());
        if has_link(rest, s.last()) {
            rest
        } else {
            rest.push(s.last())
        }
    }
}

/// `s`, in ascending order of weight, with `e` put behind the last edge that
/// is not heavier.
pub open spec fn insert_by_value(s: Seq<Edge>, e: Edge) -> Seq<Edge>
    decreases s.len(),
{
    if s.len() == 0 {
        seq![e]
    } else if s.last().value_rank() <= e.value_rank() {
        s.push(e)
    } else {
        insert_by_value(s.drop_last(), e).push(s.last())
    }
}

/// The edges of `s` in ascending order of weight; edges of equal weight keep
/// their order.
pub open spec fn sorted_by_value(s: Seq<Edge>) -> Seq<Edge>
    decreases s.len(),
{
    if s.len() == 0 {
        Seq::empty()
    } else {
        insert_by_value(sorted_by_value(s.drop_last()), s.last())
    }
}

/// The weights of `s` never fall.
pub open spec fn ascending(s: Seq<Edge>) -> bool {
    forall|i: int, j: int| 0 <= i <= j < s.len() ==> s[i].value_rank() <= s[j].value_rank()
}

/// The candidate edges of Kruskal's algorithm: every link of the graph once,
/// lightest first.
pub open spec fn spec_edges_sorted_asc(g: Graph) -> Seq<Edge> {
    sorted_by_value(distinct_links(all_edges(g)))
}

/// Putting `e` in at `pos` is putting it behind the last edge that is not
/// heavier, where everything from `pos` on is heavier and the edge before
/// `pos` is not.
pub proof fn lemma_insert_at(s: Seq<Edge>, e: Edge, pos: int)
    requires
        0 <= pos <= s.len(),
        forall|j: int| pos <= j < s.len() ==> (#[trigger] s[j]).value_rank() > e.value_rank(),
        pos > 0 ==> s[pos - 1].value_rank() <= e.value_rank(),
    ensures
        insert_by_value(s, e) == s.insert(pos, e),
    decreases s.len(),
{
    if s.len() == 0 {
        assert(seq![e] =~= s.insert(pos, e));
    } else if pos == s.len() {
        assert(s.push(e) =~= s.insert(pos, e));
    } else {
        assert(s.last().value_rank() > e.value_rank());
        let r = s.drop_last();
        assert forall|j: int| pos <= j < r.len() implies (#[trigger] r[j]).value_rank()
            > e.value_rank() by {
            assert(r[j] == s[j]);
        }
        if pos > 0 {
            assert(r[pos - 1] == s[pos - 1]);
        }
        lemma_insert_at(r, e, pos);
        assert(r.insert(pos, e).push(s.last()) =~= s.insert(pos, e));
    }
}

/// Putting an edge into an ascending sequence leaves it ascending, one edge
/// longer, and holding the new edge beside the old ones.
pub proof fn lemma_insert_by_value(s: Seq<Edge>, e: Edge)
    requires
        ascending(s),
    ensures
        ascending(insert_by_value(s, e)),
        insert_by_value(s, e).len() == s.len() + 1,
        forall|x: Edge| #[trigger]
            insert_by_value(s, e).contains(x) <==> (s.contains(x) || x == e),
    decreases s.len(),
{
    let t = insert_by_value(s, e);
    if s.len() == 0 {
        assert(t[0] == e);
        assert forall|x: Edge| t.contains(x) <==> (s.contains(x) || x == e) by {
            if t.contains(x) {
                let j = choose|j: int| 0 <= j < t.len() && t[j] == x;
            }
        }
    } else if s.last().value_rank() <= e.value_rank() {
        assert forall|i: int, j: int| 0 <= i <= j < t.len() implies t[i].value_rank()
            <= t[j].value_rank() by {
            if j == s.len() && i < s.len() {
                assert(s[i].value_rank() <= s[s.len() - 1].value_rank());
            }
        }
        assert forall|x: Edge| t.contains(x) <==> (s.contains(x) || x == e) by {
            if t.contains(x) {
                let j = choose|j: int| 0 <= j < t.len() && t[j] == x;
                if j < s.len() {
                    assert(s[j] == x);
                }
            }
            if s.contains(x) {
                let j = choose|j: int| 0 <= j < s.len() && s[j] == x;
                assert(t[j] == x);
            }
            if x == e {
                assert(t[s.len() as int] == x);
            }
        }
    } else {
        let r = s.drop_last();
        assert(ascending(r)) by {
            assert forall|i: int, j: int| 0 <= i <= j < r.len() implies r[i].value_rank()
                <= r[j].value_rank() by {
                assert(r[i] == s[i] && r[j] == s[j]);
            }
        }
        lemma_insert_by_value(r, e);
        let u = insert_by_value(r, e);
        assert forall|i: int, j: int| 0 <= i <= j < t.len() implies t[i].value_rank()
            <= t[j].value_rank() by {
            if j == u.len() && i < u.len() {
                assert(u.contains(u[i]));
                if r.contains(u[i]) {
                    let a = choose|a: int| 0 <= a < r.len() && r[a] == u[i];
                    assert(s[a].value_rank() <= s[s.len() - 1].value_rank());
                }
            } else if j < u.len() {
                assert(t[i] == u[i] && t[j] == u[j]);
            }
        }
        assert forall|x: Edge| t.contains(x) <==> (s.contains(x) || x == e) by {
            if t.contains(x) {
                let j = choose|j: int| 0 <= j < t.len() && t[j] == x;
                if j < u.len() {
                    assert(u[j] == x);
                    assert(u.contains(x));
                    if r.contains(x) {
                        let a = choose|a: int| 0 <= a < r.len() && r[a] == x;
                        assert(s[a] == x);
                    }
                } else {
                    assert(s[s.len() - 1] == x);
                }
            }
            if s.contains(x) {
                let j = choose|j: int| 0 <= j < s.len() && s[j] == x;
                if j < r.len() {
                    assert(r[j] == x);
                    assert(r.contains(x));
                    assert(u.contains(x));
                    let a = choose|a: int| 0 <= a < u.len() && u[a] == x;
                    assert(t[a] == x);
                } else {
                    assert(t[u.len() as int] == x);
                }
            }
            if x == e {
                assert(u.contains(x));
                let a = choose|a: int| 0 <= a < u.len() && u[a] == x;
                assert(t[a] == x);
            }
        }
    }
}

/// Sorting by weight gives an ascending sequence of the same edges.
pub proof fn lemma_sorted_by_value(s: Seq<Edge>)
    ensures
        ascending(sorted_by_value(s)),
        sorted_by_value(s).len() == s.len(),
        forall|x: Edge| #[trigger] sorted_by_value(s).contains(x) <==> s.contains(x),
    decreases s.len(),
{
    if s.len() == 0 {
    } else {
        let r = s.drop_last();
        lemma_sorted_by_value(r);
        lemma_insert_by_value(sorted_by_value(r), s.last());
        assert forall|x: Edge| sorted_by_value(s).contains(x) <==> s.contains(x) by {
            if s.contains(x) {
                let j = choose|j: int| 0 <= j < s.len() && s[j] == x;
                if j < r.len() {
                    assert(r[j] == x);
                }
            }
            if r.contains(x) {
                let j = choose|j: int| 0 <= j < r.len() && r[j] == x;
                assert(s[j] == x);
            }
            if x == s.last() {
                assert(s[s.len() - 1] == x);
            }
        }
    }
}

/// Of every edge of `s` the distinct links hold one between the same
/// endpoints with the same weight, and they hold edges of `s` only.
pub proof fn lemma_distinct_links(s: Seq<Edge>)
    ensures
        forall|i: int| 0 <= i < s.len() ==> has_link(distinct_links(s), #[trigger] s[i]),
        forall|j: int|
            0 <= j < distinct_links(s).len() ==> s.contains(#[trigger] distinct_links(s)[j]),
        forall|a: int, b: int|
            0 <= a < b < distinct_links(s).len() ==> !distinct_links(
                s,
            )[a].spec_same_ignore_direction(distinct_links(s)[b]),
    decreases s.len(),
{
    if s.len() > 0 {
        let r = s.drop_last();
        let kept = distinct_links(r);
        let d = distinct_links(s);
        lemma_distinct_links(r);
        assert forall|i: int| 0 <= i < s.len() implies has_link(d, #[trigger] s[i]) by {
            if i < r.len() {
                assert(r[i] == s[i]);
                let j = choose|j: int|
                    0 <= j < kept.len() && (#[trigger] kept[j]).spec_same_ignore_direction(r[i]);
                assert(d[j].spec_same_ignore_direction(s[i]));
            } else {
                if has_link(kept, s.last()) {
                } else {
                    assert(d[kept.len() as int].spec_same_ignore_direction(s[i]));
                }
            }
        }
        assert forall|j: int| 0 <= j < d.len() implies s.contains(#[trigger] d[j]) by {
            if j < kept.len() {
                assert(r.contains(kept[j]));
                let a = choose|a: int| 0 <= a < r.len() && r[a] == kept[j];
                assert(s[a] == d[j]);
            } else {
                assert(s[s.len() - 1] == d[j]);
            }
        }
        assert forall|a: int, b: int| 0 <= a < b < d.len() implies !d[a].spec_same_ignore_direction(
            d[b],
        ) by {
            if b == kept.len() {
                assert(kept[a] == d[a]);
            }
        }
    }
}

/// Whether `kept` holds an edge between the endpoints of `e`, in either
/// direction, with the weight of `e`.
fn contains_link(kept: &Vec<Edge>, e: &Edge) -> (r: bool)
    ensures
        r == has_link(kept@, *e),
{
    let mut i: usize = 0;
    while i < kept.len()
        invariant
            i <= kept.len(),
            forall|j: int| 0 <= j < i ==> !(#[trigger] kept@[j]).spec_same_ignore_direction(*e),
        decreases kept.len() - i,
    {
        if kept[i].same_ignore_direction(e) {
            return true;
        }
        i += 1;
    }
    false
}

/// Sorts edges by ascending weight; edges of equal weight keep their order.
fn sort_by_value(edges: &Vec<Edge>) -> (r: Vec<Edge>)
    ensures
        r@ == sorted_by_value(edges@),
{
    let mut out: Vec<Edge> = Vec::new();
    let mut i: usize = 0;
    while i < edges.len()
        invariant
            i <= edges.len(),
            out@ == sorted_by_value(edges@.subrange(0, i as int)),
        decreases edges.len() - i,
    {
        let e = edges[i];
        let mut pos: usize = out.len();
        while pos > 0 && out[pos - 1].heavier_than(&e)
            invariant
                pos <= out.len(),
                forall|j: int|
                    pos <= j < out.len() ==> (#[trigger] out@[j]).value_rank() > e.value_rank(),
            decreases pos,
        {
            pos -= 1;
        }
        proof {
            lemma_insert_at(out@, e, pos as int);
            assert(edges@.subrange(0, i + 1).drop_last() =~= edges@.subrange(0, i as int));
        }
        out.insert(pos, e);
        i += 1;
    }
    proof {
        assert(edges@.subrange(0, edges.len() as int) =~= edges@);
    }
    out
}

/// The candidate edges of Kruskal's algorithm: every link of the graph once,
/// lightest first. Of two edges that join the same vertices with the same
/// weight the one stored first is kept; edges of equal weight stay in
/// storage order.
pub fn edges_sorted_asc(graph: &Graph) -> (r: Vec<Edge>)
    requires
        graph.wf(),
    ensures
        r@ == spec_edges_sorted_asc(*graph),
{
    let mut kept: Vec<Edge> = Vec::new();
    let n = graph.vertex_count();
    let mut i: usize = 0;
    while i < n
        invariant
            graph.wf(),
            n == graph.vertices().len(),
            i <= n,
            kept@ == distinct_links(edges_upto(*graph, i as nat)),
        decreases n - i,
    {
        let edges = graph.edges_at(i);
        let m = edges.len();
        let mut k: usize = 0;
        proof {
            assert(edges_upto(*graph, i as nat) + edges@.subrange(0, 0) =~= edges_upto(
                *graph,
                i as nat,
            ));
        }
        while k < m
            invariant
                i < n,
                n == graph.vertices().len(),
                edges@ == graph.edges_of(i as int),
                m == edges@.len(),
                k <= m,
                kept@ == distinct_links(
                    edges_upto(*graph, i as nat) + edges@.subrange(0, k as int),
                ),
            decreases m - k,
        {
            let edge = edges.get(k);
            proof {
                let before = edges_upto(*graph, i as nat) + edges@.subrange(0, k as int);
                let after = edges_upto(*graph, i as nat) + edges@.subrange(0, k + 1);
                assert(after.drop_last() =~= before);
                assert(after.last() == edge);
            }
            if !contains_link(&kept, &edge) {
                kept.push(edge);
            }
            k += 1;
        }
        proof {
            assert(edges@.subrange(0, m as int) =~= edges@);
            assert(edges_upto(*graph, (i + 1) as nat) == edges_upto(*graph, i as nat)
                + graph.edges_of(i as int));
        }
        i += 1;
    }
    sort_by_value(&kept)
}

/// The edges of `accepted` join `a` and `b`: the two are the same vertex, or
/// a chain of accepted edges, taken in either direction, leads from one to
/// the other.
pub open spec fn joined(accepted: Seq<Edge>, a: u32, b: u32) -> bool
    decreases accepted.len(),
{
    if accepted.len() == 0 {
        a == b
    } else {
        let e = accepted.last();
        let rest = accepted.drop_last();
        ||| joined(rest, a, b)
        ||| (joined(rest, a, e.from) && joined(rest, e.to, b))
        ||| (joined(rest, a, e.to) && joined(rest, e.from, b))
    }
}

/// What Kruskal's rule accepts of the candidates `edges`: each edge in turn
/// whose endpoints the edges accepted before it do not join.
pub open spec fn greedy_forest(edges: Seq<Edge>) -> Seq<Edge>
    decreases edges.len(),
{
    if edges.len() == 0 {
        Seq::empty()
    } else {
        let chosen = greedy_forest(edges.drop_last());
        let e = edges.last();
        if joined(chosen, e.from, e.to) {
            chosen
        } else {
            chosen.push(e)
        }
    }
}

/// Every vertex is joined to itself.
pub proof fn lemma_joined_reflexive(accepted: Seq<Edge>, a: u32)
    ensures
        joined(accepted, a, a),
    decreases accepted.len(),
{
    if accepted.len() > 0 {
        lemma_joined_reflexive(accepted.drop_last(), a);
    }
}

/// What is joined one way round is joined the other way round.
pub proof fn lemma_joined_symmetric(accepted: Seq<Edge>, a: u32, b: u32)
    requires
        joined(accepted, a, b),
    ensures
        joined(accepted, b, a),
    decreases accepted.len(),
{
    if accepted.len() > 0 {
        let e = accepted.last();
        let rest = accepted.drop_last();
        if joined(rest, a, b) {
            lemma_joined_symmetric(rest, a, b);
        } else if joined(rest, a, e.from) && joined(rest, e.to, b) {
            lemma_joined_symmetric(rest, a, e.from);
            lemma_joined_symmetric(rest, e.to, b);
        } else {
            lemma_joined_symmetric(rest, a, e.to);
            lemma_joined_symmetric(rest, e.from, b);
        }
    }
}

/// The endpoints of every candidate are joined by what the rule accepts, and
/// the rule accepts candidates only.
pub proof fn lemma_greedy_forest(edges: Seq<Edge>)
    ensures
        forall|i: int|
            0 <= i < edges.len() ==> joined(
                greedy_forest(edges),
                (#[trigger] edges[i]).from,
                edges[i].to,
            ),
        forall|j: int|
            0 <= j < greedy_forest(edges).len() ==> edges.contains(
                #[trigger] greedy_forest(edges)[j],
            ),
    decreases edges.len(),
{
    if edges.len() > 0 {
        let rest = edges.drop_last();
        let chosen = greedy_forest(rest);
        let e = edges.last();
        let f = greedy_forest(edges);
        lemma_greedy_forest(rest);
        assert forall|i: int| 0 <= i < edges.len() implies joined(
            f,
            (#[trigger] edges[i]).from,
            edges[i].to,
        ) by {
            if i < rest.len() {
                assert(rest[i] == edges[i]);
                if !joined(chosen, e.from, e.to) {
                    assert(f.drop_last() =~= chosen);
                }
            } else {
                if !joined(chosen, e.from, e.to) {
                    assert(f.drop_last() =~= chosen);
                    assert(f.last() == e);
                    lemma_joined_reflexive(chosen, e.from);
                    lemma_joined_reflexive(chosen, e.to);
                }
            }
        }
        assert forall|j: int| 0 <= j < f.len() implies edges.contains(#[trigger] f[j]) by {
            if j < chosen.len() {
                assert(rest.contains(chosen[j]));
                let a = choose|a: int| 0 <= a < rest.len() && rest[a] == chosen[j];
                assert(edges[a] == f[j]);
            } else {
                assert(edges[edges.len() - 1] == f[j]);
            }
        }
    }
}

/// The table names a component for every vertex of the graph, and two
/// vertices have the same component exactly when the accepted edges join
/// them.
pub open spec fn components(g: Graph, sets: Map<u32, u32>, accepted: Seq<Edge>) -> bool {
    &&& forall|v: u32| sets.contains_key(v) <==> g.vertices().contains(v)
    &&& forall|a: u32, b: u32|
        sets.contains_key(a) && sets.contains_key(b) ==> ((#[trigger] sets[a] == #[trigger] sets[b])
            <==> joined(accepted, a, b))
}

/// Merges the component of `first` into that of `second`: every vertex of
/// the former gets the component of the latter.
pub fn union_sets(graph: &Graph, sets: &mut HashMap<u32, u32>, first: u32, second: u32)
    requires
        graph.wf(),
        forall|v: u32| old(sets)@.contains_key(v) <==> graph.vertices().contains(v),
        old(sets)@.contains_key(first),
        old(sets)@.contains_key(second),
    ensures
        forall|v: u32| final(sets)@.contains_key(v) <==> graph.vertices().contains(v),
        forall|v: u32|
            graph.vertices().contains(v) ==> #[trigger] final(sets)@[v] == if old(sets)@[v] == old(
                sets,
            )@[first] {
                old(sets)@[second]
            } else {
                old(sets)@[v]
            },
{
    let second_set = match sets.get(&second) {
        Some(s) => *s,
        None => second,
    };
    let first_set = match sets.get(&first) {
        Some(s) => *s,
        None => first,
    };
    let n = graph.vertex_count();
    let mut i: usize = 0;
    while i < n
        invariant
            graph.wf(),
            n == graph.vertices().len(),
            i <= n,
            first_set == old(sets)@[first],
            second_set == old(sets)@[second],
            forall|v: u32| sets@.contains_key(v) <==> graph.vertices().contains(v),
            forall|j: int|
                0 <= j < n ==> sets@[#[trigger] graph.vertices()[j]] == if j < i && old(
                    sets,
                )@[graph.vertices()[j]] == first_set {
                    second_set
                } else {
                    old(sets)@[graph.vertices()[j]]
                },
        decreases n - i,
    {
        let v = graph.vertex_at(i);
        let current = match sets.get(&v) {
            Some(s) => *s,
            None => v,
        };
        proof {
            assert(graph.vertices().contains(graph.vertices()[i as int]));
        }
        if current == first_set {
            sets.insert(v, second_set);
            proof {
                assert forall|j: int| 0 <= j < n implies sets@[#[trigger] graph.vertices()[j]]
                    == if j < i + 1 && old(sets)@[graph.vertices()[j]] == first_set {
                    second_set
                } else {
                    old(sets)@[graph.vertices()[j]]
                } by {
                    if j != i {
                        assert(graph.vertices()[j] != graph.vertices()[i as int]);
                    }
                }
            }
        }
        i += 1;
    }
    proof {
        assert forall|v: u32| graph.vertices().contains(v) implies #[trigger] sets@[v] == if old(
            sets,
        )@[v] == old(sets)@[first] {
            old(sets)@[second]
        } else {
            old(sets)@[v]
        } by {
            let j = graph.vertices().index_of(v);
            assert(graph.vertices()[j] == v);
        }
    }
}

/// After the components of the endpoints of `e` are merged, the table
/// describes what the accepted edges and `e` join.
proof fn lemma_components_merged(
    g: Graph,
    before: Map<u32, u32>,
    after: Map<u32, u32>,
    accepted: Seq<Edge>,
    e: Edge,
)
    requires
        components(g, before, accepted),
        before.contains_key(e.from),
        before.contains_key(e.to),
        forall|v: u32| after.contains_key(v) <==> g.vertices().contains(v),
        forall|v: u32|
            g.vertices().contains(v) ==> #[trigger] after[v] == if before[v] == before[e.from] {
                before[e.to]
            } else {
                before[v]
            },
    ensures
        components(g, after, accepted.push(e)),
{
    let next = accepted.push(e);
    assert(next.drop_last() =~= accepted);
    assert(next.last() == e);
    assert forall|a: u32, b: u32| after.contains_key(a) && after.contains_key(b) implies ((
    #[trigger] after[a] == #[trigger] after[b]) <==> joined(next, a, b)) by {
        assert(before.contains_key(a) && before.contains_key(b));
        assert((before[a] == before[b]) <==> joined(accepted, a, b));
        assert((before[a] == before[e.from]) <==> joined(accepted, a, e.from));
        assert((before[a] == before[e.to]) <==> joined(accepted, a, e.to));
        assert((before[e.from] == before[b]) <==> joined(accepted, e.from, b));
        assert((before[e.to] == before[b]) <==> joined(accepted, e.to, b));
    }
}

/// Builds a minimum spanning forest with Kruskal's algorithm.
///
/// The candidate edges are taken lightest first; an edge is accepted exactly
/// when the edges accepted before it do not join its endpoints. What is
/// accepted consists of edges of the graph and joins the endpoints of every
/// edge of the graph.
pub fn minimal_spanning_tree_kruskal(graph: &Graph) -> (r: Edges)
    requires
        graph.wf(),
    ensures
        r@ == greedy_forest(spec_edges_sorted_asc(*graph)),
        forall|j: int| 0 <= j < r@.len() ==> graph.has_edge(#[trigger] r@[j]),
        forall|e: Edge| #[trigger] graph.has_edge(e) ==> joined(r@, e.from, e.to),
{
    let mut result = Edges::new();
    let mut sets: HashMap<u32, u32> = HashMap::new();
    let n = graph.vertex_count();
    let mut i: usize = 0;
    while i < n
        invariant
            graph.wf(),
            n == graph.vertices().len(),
            i <= n,
            forall|v: u32|
                sets@.contains_key(v) <==> graph.vertices().subrange(0, i as int).contains(v),
            forall|v: u32| sets@.contains_key(v) ==> #[trigger] sets@[v] == v,
        decreases n - i,
    {
        let vert = graph.vertex_at(i);
        proof {
            let a = graph.vertices().subrange(0, i as int);
            let b = graph.vertices().subrange(0, i + 1);
            assert(b[i as int] == vert);
            assert forall|v: u32| b.contains(v) <==> (a.contains(v) || v == vert) by {
                if b.contains(v) {
                    let j = choose|j: int| 0 <= j < b.len() && b[j] == v;
                    if j < i {
                        assert(a[j] == v);
                    }
                }
                if a.contains(v) {
                    let j = choose|j: int| 0 <= j < a.len() && a[j] == v;
                    assert(b[j] == v);
                }
            }
        }
        sets.insert(vert, vert);
        i += 1;
    }
    let edges = edges_sorted_asc(graph);
    proof {
        assert(graph.vertices().subrange(0, n as int) =~= graph.vertices());
        assert(components(*graph, sets@, result@));
        lemma_candidates_are_edges(*graph);
        assert(edges@.subrange(0, 0) =~= Seq::<Edge>::empty());
    }
    let mut k: usize = 0;
    while k < edges.len()
        invariant
            graph.wf(),
            k <= edges.len(),
            edges@ == spec_edges_sorted_asc(*graph),
            forall|j: int| 0 <= j < edges@.len() ==> graph.has_edge(#[trigger] edges@[j]),
            components(*graph, sets@, result@),
            result@ == greedy_forest(edges@.subrange(0, k as int)),
        decreases edges.len() - k,
    {
        let edge = edges[k];
        proof {
            lemma_edge_ends(*graph, edge);
            assert(edges@.subrange(0, k + 1).drop_last() =~= edges@.subrange(0, k as int));
            assert(edges@.subrange(0, k + 1).last() == edge);
        }
        let from_set = match sets.get(&edge.from) {
            Some(s) => *s,
            None => edge.from,
        };
        let to_set = match sets.get(&edge.to) {
            Some(s) => *s,
            None => edge.to,
        };
        if from_set != to_set {
            let ghost before = sets@;
            let ghost accepted = result@;
            result.add_edge(edge);
            union_sets(graph, &mut sets, edge.from, edge.to);
            proof {
                lemma_components_merged(*graph, before, sets@, accepted, edge);
            }
        }
        k += 1;
    }
    proof {
        assert(edges@.subrange(0, edges.len() as int) =~= edges@);
        lemma_greedy_forest(edges@);
        assert forall|j: int| 0 <= j < result@.len() implies graph.has_edge(
            #[trigger] result@[j],
        ) by {
            assert(edges@.contains(result@[j]));
            let a = choose|a: int| 0 <= a < edges@.len() && edges@[a] == result@[j];
        }
        assert forall|e: Edge| #[trigger] graph.has_edge(e) implies joined(
            result@,
            e.from,
            e.to,
        ) by {
            lemma_edge_is_candidate(*graph, e);
            let a = choose|a: int|
                0 <= a < edges@.len() && (#[trigger] edges@[a]).spec_same_ignore_direction(e);
            assert(joined(result@, edges@[a].from, edges@[a].to));
            if edges@[a] != e {
                lemma_joined_symmetric(result@, edges@[a].from, edges@[a].to);
            }
        }
    }
    result
}

/// Every edge stored for one of the first `i` vertices is an edge of the
/// graph, and every edge of the graph is stored for some vertex.
proof fn lemma_edges_upto(g: Graph, i: nat)
    requires
        g.wf(),
        i <= g.vertices().len(),
    ensures
        forall|j: int| 0 <= j < edges_upto(g, i).len() ==> g.has_edge(#[trigger] edges_upto(g, i)[j]),
        forall|a: int, b: int|
            0 <= a < i && 0 <= b < g.edges_of(a).len() ==> edges_upto(g, i).contains(
                #[trigger] g.edges_of(a)[b],
            ),
    decreases i,
{
    if i > 0 {
        let prev = edges_upto(g, (i - 1) as nat);
        let cur = edges_upto(g, i);
        let last = g.edges_of(i - 1);
        lemma_edges_upto(g, (i - 1) as nat);
        assert forall|j: int| 0 <= j < cur.len() implies g.has_edge(#[trigger] cur[j]) by {
            if j < prev.len() {
                assert(cur[j] == prev[j]);
            } else {
                assert(cur[j] == last[j - prev.len()]);
                lemma_edge_at(g, i - 1, j - prev.len());
            }
        }
        assert forall|a: int, b: int| 0 <= a < i && 0 <= b < g.edges_of(a).len() implies cur.contains(
            #[trigger] g.edges_of(a)[b],
        ) by {
            if a < i - 1 {
                assert(prev.contains(g.edges_of(a)[b]));
                let j = choose|j: int| 0 <= j < prev.len() && prev[j] == g.edges_of(a)[b];
                assert(cur[j] == prev[j]);
            } else {
                assert(cur[prev.len() + b] == last[b]);
            }
        }
    }
}

/// The candidates are edges of the graph.
pub proof fn lemma_candidates_are_edges(g: Graph)
    requires
        g.wf(),
    ensures
        forall|j: int|
            0 <= j < spec_edges_sorted_asc(g).len() ==> g.has_edge(
                #[trigger] spec_edges_sorted_asc(g)[j],
            ),
{
    let all = all_edges(g);
    let d = distinct_links(all);
    let s = spec_edges_sorted_asc(g);
    lemma_edges_upto(g, g.vertices().len());
    lemma_distinct_links(all);
    lemma_sorted_by_value(d);
    assert forall|j: int| 0 <= j < s.len() implies g.has_edge(#[trigger] s[j]) by {
        assert(s.contains(s[j]));
        assert(d.contains(s[j]));
        let a = choose|a: int| 0 <= a < d.len() && d[a] == s[j];
        assert(all.contains(d[a]));
        let b = choose|b: int| 0 <= b < all.len() && all[b] == d[a];
        assert(g.has_edge(all[b]));
    }
}

/// Of every edge of the graph the candidates hold one between the same
/// endpoints with the same weight.
pub proof fn lemma_edge_is_candidate(g: Graph, e: Edge)
    requires
        g.wf(),
        g.has_edge(e),
    ensures
        has_link(spec_edges_sorted_asc(g), e),
{
    let all = all_edges(g);
    let d = distinct_links(all);
    let s = spec_edges_sorted_asc(g);
    lemma_edges_upto(g, g.vertices().len());
    lemma_distinct_links(all);
    lemma_sorted_by_value(d);
    lemma_edge_ends(g, e);
    let a = g.vertices().index_of(e.from);
    let b = choose|b: int| 0 <= b < g.out(e.from).len() && g.out(e.from)[b] == e;
    assert(all.contains(g.edges_of(a)[b]));
    let i = choose|i: int| 0 <= i < all.len() && all[i] == e;
    assert(has_link(d, all[i]));
    let j = choose|j: int| 0 <= j < d.len() && (#[trigger] d[j]).spec_same_ignore_direction(e);
    assert(d.contains(d[j]));
    assert(s.contains(d[j]));
    let k = choose|k: int| 0 <= k < s.len() && s[k] == d[j];
    assert(s[k].spec_same_ignore_direction(e));
}

/// The edges of `edges` that lead to `target`, in order.
pub open spec fn matching(edges: Seq<Edge>, target: u32) -> Seq<Edge>
    decreases edges.len(),
{
    if edges.len() == 0 {
        Seq::empty()
    } else {
        let rest = matching(edges.drop_last(), target);
        if edges.last().to == target {
            rest.push(edges.last())
        } else {
            rest
        }
    }
}

/// For the first `i` vertices, in the graph's order, the edges that lead
/// from the vertex to what `prev` names for it.
pub open spec fn links_upto(g: Graph, prev: Map<u32, u32>, i: nat) -> Seq<Edge>
    decreases i,
{
    if i == 0 {
        Seq::empty()
    } else {
        links_upto(g, prev, (i - 1) as nat) + matching(
            g.edges_of(i - 1),
            prev[g.vertices()[i - 1]],
        )
    }
}

/// `prev` is a forest that Prim's rule grows from `root`, the vertices taken
/// in the order `order`.
///
/// The root comes first and is its own predecessor. A vertex with another
/// predecessor came after it, and `via` names the edge from the predecessor:
/// no edge that leads from a vertex taken before it to a vertex not taken
/// before it is lighter. Where a vertex is its own predecessor, no edge
/// leads from a vertex taken before it to one not taken before it.
pub open spec fn prim_forest(
    g: Graph,
    root: u32,
    prev: Map<u32, u32>,
    order: Map<u32, nat>,
    via: Map<u32, Edge>,
) -> bool {
    &&& forall|v: u32| prev.contains_key(v) <==> g.vertices().contains(v)
    &&& g.vertices().contains(root) ==> prev[root] == root && order[root] == 0
    &&& forall|v: u32| g.vertices().contains(v) ==> #[trigger] order[v] < g.vertices().len()
    &&& forall|a: u32, b: u32|
        g.vertices().contains(a) && g.vertices().contains(b) && a != b ==> #[trigger] order[a]
            != #[trigger] order[b]
    &&& forall|v: u32|
        g.vertices().contains(v) && #[trigger] prev[v] != v ==> {
            &&& g.vertices().contains(prev[v])
            &&& order[prev[v]] < order[v]
            &&& g.has_edge(via[v])
            &&& via[v].from == prev[v]
            &&& via[v].to == v
        }
    &&& forall|v: u32, e: Edge|
        #[trigger] g.vertices().contains(v) && #[trigger] g.has_edge(e) && order[e.from] < order[v]
            <= order[e.to] ==> prev[v] != v && via[v].cost() <= e.cost()
}

/// The vertex `v` has left the heap.
pub open spec fn taken(g: Graph, heap: Map<u32, VertAttributes<u32>>, v: u32) -> bool {
    g.vertices().contains(v) && !heap.contains_key(v)
}

/// The key under which `v` waits in the heap.
pub open spec fn key_of(root: u32, prev: Map<u32, u32>, via: Map<u32, Edge>, v: u32) -> Distance {
    if prev[v] != v {
        Distance::Dist(via[v].cost() as u32)
    } else if v == root {
        Distance::Dist(0)
    } else {
        Distance::Inf
    }
}

/// What holds of Prim's search between two steps.
#[verifier::opaque]
pub open spec fn prim_inv(
    g: Graph,
    root: u32,
    heap: Map<u32, VertAttributes<u32>>,
    prev: Map<u32, u32>,
    via: Map<u32, Edge>,
    order: Map<u32, nat>,
    count: nat,
    cur: u32,
    upto: int,
) -> bool {
    &&& forall|v: u32| prev.contains_key(v) <==> g.vertices().contains(v)
    &&& forall|v: u32| #[trigger]
        heap.contains_key(v) ==> g.vertices().contains(v) && heap[v].id == v && heap[v].distance
            == key_of(root, prev, via, v)
    &&& g.vertices().contains(root) ==> prev[root] == root
    &&& count == 0 ==> forall|v: u32| g.vertices().contains(v) ==> #[trigger] prev[v] == v
    &&& count == 0 ==> forall|v: u32| g.vertices().contains(v) ==> heap.contains_key(v)
    &&& count > 0 && g.vertices().contains(root) ==> !heap.contains_key(root) && order[root] == 0
    &&& forall|v: u32|
        g.vertices().contains(v) && #[trigger] prev[v] != v ==> {
            &&& v != root
            &&& taken(g, heap, prev[v])
            &&& g.has_edge(via[v])
            &&& via[v].from == prev[v]
            &&& via[v].to == v
            &&& order[prev[v]] < count
            &&& (!heap.contains_key(v) ==> order[prev[v]] < order[v])
        }
    &&& forall|v: u32| #[trigger] taken(g, heap, v) ==> order[v] < count
    &&& forall|a: u32, b: u32|
        taken(g, heap, a) && taken(g, heap, b) && a != b ==> #[trigger] order[a]
            != #[trigger] order[b]
    &&& forall|x: u32, k: int|
        taken(g, heap, x) && 0 <= k < g.out(x).len() && (x == cur ==> k < upto) && heap.contains_key(
            (#[trigger] g.out(x)[k]).to,
        ) ==> heap[g.out(x)[k].to].distance.rank() <= g.out(x)[k].cost()
    &&& forall|v: u32, e: Edge|
        #[trigger] taken(g, heap, v) && #[trigger] g.has_edge(e) && taken(g, heap, e.from)
            && order[e.from] < order[v] && (heap.contains_key(e.to) || order[v] <= order[e.to])
            ==> prev[v] != v && via[v].cost() <= e.cost()
}

/// What the steps of Prim's search need to know of its state.
proof fn lemma_prim_parts(
    g: Graph,
    root: u32,
    heap: Map<u32, VertAttributes<u32>>,
    prev: Map<u32, u32>,
    via: Map<u32, Edge>,
    order: Map<u32, nat>,
    count: nat,
    cur: u32,
    upto: int,
)
    requires
        prim_inv(g, root, heap, prev, via, order, count, cur, upto),
    ensures
        forall|v: u32| prev.contains_key(v) <==> g.vertices().contains(v),
        forall|v: u32| #[trigger] heap.contains_key(v) ==> g.vertices().contains(v),
{
    reveal(prim_inv);
}

/// Taking the vertex with the least key out of the heap keeps Prim's
/// search in order.
proof fn lemma_prim_extract(
    g: Graph,
    root: u32,
    heap: Map<u32, VertAttributes<u32>>,
    prev: Map<u32, u32>,
    via: Map<u32, Edge>,
    order: Map<u32, nat>,
    count: nat,
    cur: u32,
    upto: int,
    u: u32,
)
    requires
        g.wf(),
        prim_inv(g, root, heap, prev, via, order, count, cur, upto),
        upto >= g.out(cur).len() || heap.contains_key(cur),
        heap.contains_key(u),
        forall|y: u32| #[trigger]
            heap.contains_key(y) ==> heap[u].distance.spec_le(heap[y].distance),
    ensures
        prim_inv(g, root, heap.remove(u), prev, via, order.insert(u, count), count + 1, u, 0),
{
    reveal(prim_inv);
    let h2 = heap.remove(u);
    let order2 = order.insert(u, count);
    if g.vertices().contains(root) && count == 0 {
        assert(heap.contains_key(root));
        assert(heap[u].distance.spec_le(heap[root].distance));
        assert(prev[u] == u);
        assert(u == root);
    }
    assert forall|v: u32| #[trigger] taken(g, h2, v) implies order2[v] < count + 1 by {
        if v != u {
            assert(taken(g, heap, v));
        }
    }
    assert forall|a: u32, b: u32|
        taken(g, h2, a) && taken(g, h2, b) && a != b implies #[trigger] order2[a]
        != #[trigger] order2[b] by {
        if a != u {
            assert(taken(g, heap, a));
        }
        if b != u {
            assert(taken(g, heap, b));
        }
    }
    assert forall|v: u32| g.vertices().contains(v) && #[trigger] prev[v] != v implies {
        &&& v != root
        &&& taken(g, h2, prev[v])
        &&& g.has_edge(via[v])
        &&& via[v].from == prev[v]
        &&& via[v].to == v
        &&& order2[prev[v]] < count + 1
        &&& (!h2.contains_key(v) ==> order2[prev[v]] < order2[v])
    } by {
        assert(taken(g, heap, prev[v]));
        assert(prev[v] != u);
    }
    assert forall|x: u32, k: int|
        taken(g, h2, x) && 0 <= k < g.out(x).len() && (x == u ==> k < 0) && h2.contains_key(
            (#[trigger] g.out(x)[k]).to,
        ) implies h2[g.out(x)[k].to].distance.rank() <= g.out(x)[k].cost() by {
        assert(taken(g, heap, x));
        assert(heap.contains_key(g.out(x)[k].to));
    }
    assert forall|v: u32, e: Edge|
        #[trigger] taken(g, h2, v) && #[trigger] g.has_edge(e) && taken(g, h2, e.from)
            && order2[e.from] < order2[v] && (h2.contains_key(e.to) || order2[v]
            <= order2[e.to]) implies prev[v] != v && via[v].cost() <= e.cost() by {
        lemma_edge_ends(g, e);
        if v == u {
            assert(e.from != u);
            assert(taken(g, heap, e.from));
            if !heap.contains_key(e.to) {
                assert(taken(g, heap, e.to));
                assert(order[e.to] < count);
            }
            let x = e.from;
            let k = choose|k: int| 0 <= k < g.out(x).len() && g.out(x)[k] == e;
            assert(heap.contains_key(g.out(x)[k].to));
            assert(heap[e.to].distance.rank() <= e.cost());
            assert(heap[u].distance.spec_le(heap[e.to].distance));
            assert(heap[u].distance == key_of(root, prev, via, u));
            if prev[u] == u {
                if u == root {
                    assert(count == 0);
                    assert(false);
                }
            }
        } else {
            assert(taken(g, heap, v));
            assert(order[v] < count);
            assert(e.from != u);
            assert(taken(g, heap, e.from));
        }
    }
}

/// Lowering the key of an edge's target to the edge's cost keeps Prim's
/// search in order.
proof fn lemma_prim_update(
    g: Graph,
    root: u32,
    heap: Map<u32, VertAttributes<u32>>,
    prev: Map<u32, u32>,
    via: Map<u32, Edge>,
    order: Map<u32, nat>,
    count: nat,
    u: u32,
    k: int,
)
    requires
        g.wf(),
        prim_inv(g, root, heap, prev, via, order, count, u, k),
        taken(g, heap, u),
        0 <= k < g.out(u).len(),
        heap.contains_key(g.out(u)[k].to),
        g.out(u)[k].cost() < heap[g.out(u)[k].to].distance.rank(),
    ensures
        prim_inv(
            g,
            root,
            heap.insert(
                g.out(u)[k].to,
                VertAttributes {
                    id: g.out(u)[k].to,
                    predecessor: None,
                    distance: Distance::Dist(g.out(u)[k].cost() as u32),
                },
            ),
            prev.insert(g.out(u)[k].to, u),
            via.insert(g.out(u)[k].to, g.out(u)[k]),
            order,
            count,
            u,
            k + 1,
        ),
{
    reveal(prim_inv);
    let e = g.out(u)[k];
    let v = e.to;
    let rec = VertAttributes { id: v, predecessor: None, distance: Distance::Dist(e.cost() as u32) };
    let h2 = heap.insert(v, rec);
    let prev2 = prev.insert(v, u);
    let via2 = via.insert(v, e);
    let i = g.vertices().index_of(u);
    lemma_edge_at(g, i, k);
    assert(order[u] < count);
    assert(v != u);
    assert(v != root);
    assert forall|w: u32| #[trigger] h2.contains_key(w) implies g.vertices().contains(w)
        && h2[w].id == w && h2[w].distance == key_of(root, prev2, via2, w) by {
        if w != v {
            assert(heap.contains_key(w));
        }
    }
    assert forall|w: u32| g.vertices().contains(w) && #[trigger] prev2[w] != w implies {
        &&& w != root
        &&& taken(g, h2, prev2[w])
        &&& g.has_edge(via2[w])
        &&& via2[w].from == prev2[w]
        &&& via2[w].to == w
        &&& order[prev2[w]] < count
        &&& (!h2.contains_key(w) ==> order[prev2[w]] < order[w])
    } by {
        if w != v {
            assert(prev[w] != w);
            assert(taken(g, heap, prev[w]));
        }
    }
    assert forall|w: u32| #[trigger] taken(g, h2, w) implies order[w] < count by {
        assert(taken(g, heap, w));
    }
    assert forall|a: u32, b: u32|
        taken(g, h2, a) && taken(g, h2, b) && a != b implies #[trigger] order[a]
        != #[trigger] order[b] by {
        assert(taken(g, heap, a) && taken(g, heap, b));
    }
    assert forall|x: u32, j: int|
        taken(g, h2, x) && 0 <= j < g.out(x).len() && (x == u ==> j < k + 1) && h2.contains_key(
            (#[trigger] g.out(x)[j]).to,
        ) implies h2[g.out(x)[j].to].distance.rank() <= g.out(x)[j].cost() by {
        assert(taken(g, heap, x));
        if x == u && j == k {
        } else {
            assert(heap.contains_key(g.out(x)[j].to));
        }
    }
    assert forall|w: u32, d: Edge|
        #[trigger] taken(g, h2, w) && #[trigger] g.has_edge(d) && taken(g, h2, d.from)
            && order[d.from] < order[w] && (h2.contains_key(d.to) || order[w]
            <= order[d.to]) implies prev2[w] != w && via2[w].cost() <= d.cost() by {
        assert(taken(g, heap, w) && taken(g, heap, d.from));
        assert(w != v);
    }
}

/// Leaving the target of an edge as it is, where the heap does not hold it
/// or its key is not above the edge's cost, keeps Prim's search in order.
proof fn lemma_prim_skip(
    g: Graph,
    root: u32,
    heap: Map<u32, VertAttributes<u32>>,
    prev: Map<u32, u32>,
    via: Map<u32, Edge>,
    order: Map<u32, nat>,
    count: nat,
    u: u32,
    k: int,
)
    requires
        g.wf(),
        prim_inv(g, root, heap, prev, via, order, count, u, k),
        taken(g, heap, u),
        0 <= k < g.out(u).len(),
        heap.contains_key(g.out(u)[k].to) ==> heap[g.out(u)[k].to].distance.rank() <= g.out(
            u,
        )[k].cost(),
    ensures
        prim_inv(g, root, heap, prev, via, order, count, u, k + 1),
{
    reveal(prim_inv);
}

/// When the heap is empty, the predecessors are a forest grown by Prim's
/// rule.
proof fn lemma_prim_end(
    g: Graph,
    root: u32,
    heap: Map<u32, VertAttributes<u32>>,
    prev: Map<u32, u32>,
    via: Map<u32, Edge>,
    order: Map<u32, nat>,
    count: nat,
    cur: u32,
    upto: int,
)
    requires
        g.wf(),
        prim_inv(g, root, heap, prev, via, order, count, cur, upto),
        forall|v: u32| !heap.contains_key(v),
        count <= g.vertices().len(),
    ensures
        prim_forest(g, root, prev, order, via),
{
    reveal(prim_inv);
    assert forall|v: u32| g.vertices().contains(v) implies #[trigger] order[v]
        < g.vertices().len() by {
        assert(taken(g, heap, v));
    }
    assert forall|a: u32, b: u32|
        g.vertices().contains(a) && g.vertices().contains(b) && a != b implies #[trigger] order[a]
        != #[trigger] order[b] by {
        assert(taken(g, heap, a) && taken(g, heap, b));
    }
    assert forall|v: u32, e: Edge|
        #[trigger] g.vertices().contains(v) && #[trigger] g.has_edge(e) && order[e.from] < order[v]
            <= order[e.to] implies prev[v] != v && via[v].cost() <= e.cost() by {
        lemma_edge_ends(g, e);
        assert(taken(g, heap, v) && taken(g, heap, e.from));
    }
    if g.vertices().contains(root) {
        assert(taken(g, heap, root));
        if count == 0 {
            assert(heap.contains_key(root));
        }
    }
    assert forall|v: u32| g.vertices().contains(v) && #[trigger] prev[v] != v implies {
        &&& g.vertices().contains(prev[v])
        &&& order[prev[v]] < order[v]
        &&& g.has_edge(via[v])
        &&& via[v].from == prev[v]
        &&& via[v].to == v
    } by {
        assert(taken(g, heap, prev[v]));
    }
}

/// The links are edges of the graph.
pub proof fn lemma_links_are_edges(g: Graph, prev: Map<u32, u32>, i: nat)
    requires
        g.wf(),
        i <= g.vertices().len(),
    ensures
        forall|j: int|
            0 <= j < links_upto(g, prev, i).len() ==> g.has_edge(
                #[trigger] links_upto(g, prev, i)[j],
            ),
    decreases i,
{
    if i > 0 {
        let before = links_upto(g, prev, (i - 1) as nat);
        let here = matching(g.edges_of(i - 1), prev[g.vertices()[i - 1]]);
        let all = links_upto(g, prev, i);
        lemma_links_are_edges(g, prev, (i - 1) as nat);
        lemma_matching(g.edges_of(i - 1), prev[g.vertices()[i - 1]]);
        assert forall|j: int| 0 <= j < all.len() implies g.has_edge(#[trigger] all[j]) by {
            if j < before.len() {
                assert(all[j] == before[j]);
            } else {
                let x = here[j - before.len()];
                let row = g.edges_of(i - 1);
                assert(all[j] == x);
                assert(row.contains(x));
                let b = choose|b: int| 0 <= b < row.len() && row[b] == x;
                lemma_edge_at(g, i - 1, b);
            }
        }
    }
}

/// What matches is taken from the edges given.
pub proof fn lemma_matching(edges: Seq<Edge>, target: u32)
    ensures
        forall|j: int|
            0 <= j < matching(edges, target).len() ==> edges.contains(
                #[trigger] matching(edges, target)[j],
            ) && matching(edges, target)[j].to == target,
    decreases edges.len(),
{
    if edges.len() > 0 {
        let rest = edges.drop_last();
        let m = matching(edges, target);
        let r = matching(rest, target);
        lemma_matching(rest, target);
        assert forall|j: int| 0 <= j < m.len() implies edges.contains(#[trigger] m[j]) && m[j].to
            == target by {
            if j < r.len() {
                assert(m[j] == r[j]);
                assert(rest.contains(r[j]));
                let a = choose|a: int| 0 <= a < rest.len() && rest[a] == r[j];
                assert(edges[a] == m[j]);
            } else {
                assert(edges[edges.len() - 1] == m[j]);
            }
        }
    }
}

/// Predecessors and heap after the edges that leave `u`, from place `k` on,
/// have been looked at: where the heap still holds an edge's target at a
/// key above the edge's cost, `u` becomes the target's predecessor and the
/// target's key is lowered to the cost.
pub open spec fn prim_along(
    prev: Map<u32, u32>,
    heap: Seq<VertAttributes<u32>>,
    u: u32,
    edges: Seq<Edge>,
    k: nat,
) -> (Map<u32, u32>, Seq<VertAttributes<u32>>)
    decreases edges.len() - k,
{
    if k >= edges.len() {
        (prev, heap)
    } else {
        let e = edges[k as int];
        let key = Distance::Dist(e.cost() as u32);
        let next = if holds(heap, e.to) && key.spec_lt(heap[slot(heap, e.to)].distance) {
            let record = VertAttributes { id: e.to, predecessor: None, distance: key };
            (prev.insert(e.to, u), risen(heap.update(slot(heap, e.to), record), slot(heap, e.to)))
        } else {
            (prev, heap)
        };
        prim_along(next.0, next.1, u, edges, k + 1)
    }
}

/// The predecessors that Prim's search ends with, given its predecessors and
/// heap now: the root leaves the heap, the last record takes its place and
/// sinks, and the edges that leave the root's vertex are looked at; so on
/// until the heap is empty, `fuel` times at most.
pub open spec fn prim_links(g: Graph, prev: Map<u32, u32>, heap: Seq<VertAttributes<u32>>, fuel: nat) -> Map<
    u32,
    u32,
>
    decreases fuel,
{
    if fuel == 0 || heap.len() == 0 {
        prev
    } else {
        let u = heap[0].id;
        let rest = sunk(heap.update(0, heap.last()).drop_last(), 0);
        let next = prim_along(prev, rest, u, g.out(u), 0);
        prim_links(g, next.0, next.1, (fuel - 1) as nat)
    }
}

/// The heap with which Prim's search starts: the vertices other than the
/// root at infinity, in the graph's order, and after them the root at zero,
/// where it is a vertex of the graph.
pub open spec fn prim_heap(g: Graph, root: u32) -> Seq<VertAttributes<u32>> {
    if g.vertices().contains(root) {
        initial_heap(g, root)
    } else {
        heap_filled(g, root, g.vertices().len())
    }
}

/// The result of Prim's algorithm, exactly: the links to the predecessors
/// that the search ends with, having started with every vertex as its own
/// predecessor.
pub open spec fn prim_tree(g: Graph, root: u32) -> Seq<Edge> {
    links_upto(
        g,
        prim_links(
            g,
            Map::new(|v: u32| g.vertices().contains(v), |v: u32| v),
            prim_heap(g, root),
            prim_heap(g, root).len(),
        ),
        g.vertices().len(),
    )
}

/// Builds a spanning forest with Prim's algorithm, begun at `root`.
///
/// The vertices leave the heap one by one, the root first and then always a
/// vertex that the lightest edge reaches from those that have left; a vertex
/// that no edge reaches from them begins a tree of its own. Each vertex
/// remembers the vertex from which its lightest edge came as its
/// predecessor. The result lists, vertex by vertex in the graph's order, the
/// edges that lead from the vertex to its predecessor.
pub fn minimal_spanning_tree_prim(graph: &Graph, root: u32) -> (r: Edges)
    requires
        graph.wf(),
    ensures
        r@ == prim_tree(*graph, root),
        exists|prev: Map<u32, u32>, order: Map<u32, nat>, via: Map<u32, Edge>|
            prim_forest(*graph, root, prev, order, via) && r@ == links_upto(
                *graph,
                prev,
                graph.vertices().len(),
            ),
        forall|j: int| 0 <= j < r@.len() ==> graph.has_edge(#[trigger] r@[j]),
{
    let mut result = Edges::new();
    let mut min_heap: PositionTrackingMinHeap<u32> = PositionTrackingMinHeap::new();
    let mut prev: HashMap<u32, u32> = HashMap::new();
    let n = graph.vertex_count();
    let ghost mut via: Map<u32, Edge> = Map::total(|v: u32| Edge { value: None, from: 0, to: 0 });
    let ghost mut order: Map<u32, nat> = Map::total(|v: u32| 0nat);
    let ghost mut count: nat = 0;
    let ghost mut cur: u32 = root;
    let ghost mut upto: int = 0;
    let mut i: usize = 0;
    proof {
        assert(min_heap.entries() =~= Map::<u32, VertAttributes<u32>>::empty());
    }
    while i < n
        invariant
            graph.wf(),
            n == graph.vertices().len(),
            i <= n,
            min_heap.wf(),
            min_heap@ == heap_filled(*graph, root, i as nat),
            min_heap@.len() + (if graph.vertices().subrange(0, i as int).contains(root) {
                1nat
            } else {
                0nat
            }) == i,
            forall|v: u32|
                prev@.contains_key(v) <==> graph.vertices().subrange(0, i as int).contains(v),
            forall|v: u32| prev@.contains_key(v) ==> #[trigger] prev@[v] == v,
            forall|v: u32|
                min_heap.entries().contains_key(v) <==> (graph.vertices().subrange(
                    0,
                    i as int,
                ).contains(v) && v != root),
            forall|v: u32|
                min_heap.entries().contains_key(v) ==> #[trigger] min_heap.entries()[v]
                    == (VertAttributes { id: v, predecessor: None, distance: Distance::Inf }),
        decreases n - i,
    {
        let vert = graph.vertex_at(i);
        proof {
            let a = graph.vertices().subrange(0, i as int);
            let b = graph.vertices().subrange(0, i + 1);
            assert(b[i as int] == vert);
            if a.contains(vert) {
                let j = choose|j: int| 0 <= j < a.len() && a[j] == vert;
                assert(graph.vertices()[j] == graph.vertices()[i as int]);
            }
            assert forall|v: u32| b.contains(v) <==> (a.contains(v) || v == vert) by {
                if b.contains(v) {
                    let j = choose|j: int| 0 <= j < b.len() && b[j] == v;
                    if j < i {
                        assert(a[j] == v);
                    }
                }
                if a.contains(v) {
                    let j = choose|j: int| 0 <= j < a.len() && a[j] == v;
                    assert(b[j] == v);
                }
            }
        }
        if vert != root {
            min_heap.insert(VertAttributes::new_inf(vert));
        }
        prev.insert(vert, vert);
        i += 1;
    }
    proof {
        assert(graph.vertices().subrange(0, n as int) =~= graph.vertices());
    }
    let root_known = graph.position(root).is_some();
    if root_known {
        min_heap.insert(VertAttributes::new_zero(root));
    }
    let ghost goal = prim_links(*graph, prev@, min_heap@, min_heap@.len());
    proof {
        assert(min_heap@ == prim_heap(*graph, root));
        assert(prev@ =~= Map::new(|v: u32| graph.vertices().contains(v), |v: u32| v));
        assert(prim_inv(*graph, root, min_heap.entries(), prev@, via, order, 0, root, 0)) by {
            reveal(prim_inv);
        }
    }
    while !min_heap.is_empty()
        invariant
            graph.wf(),
            n == graph.vertices().len(),
            min_heap.wf(),
            count + min_heap@.len() == n,
            prim_links(*graph, prev@, min_heap@, min_heap@.len()) == goal,
            prim_inv(*graph, root, min_heap.entries(), prev@, via, order, count, cur, upto),
            upto >= graph.out(cur).len() || min_heap.entries().contains_key(cur) || (count == 0
                && !graph.vertices().contains(root)),
        decreases min_heap@.len(),
    {
        let ghost before = min_heap.entries();
        let elem = min_heap.extract_min();
        let curr_vert = elem.id;
        let ghost popped = (prev@, min_heap@);
        proof {
            assert(before.contains_key(curr_vert));
            if !(upto >= graph.out(cur).len() || before.contains_key(cur)) {
                assert(prim_inv(*graph, root, before, prev@, via, order, count, curr_vert, 0)) by {
                    reveal(prim_inv);
                }
                lemma_prim_extract(
                    *graph,
                    root,
                    before,
                    prev@,
                    via,
                    order,
                    count,
                    curr_vert,
                    0,
                    curr_vert,
                );
            } else {
                lemma_prim_extract(
                    *graph,
                    root,
                    before,
                    prev@,
                    via,
                    order,
                    count,
                    cur,
                    upto,
                    curr_vert,
                );
            }
            lemma_prim_parts(*graph, root, before, prev@, via, order, count, cur, upto);
            order = order.insert(curr_vert, count);
            count = count + 1;
            cur = curr_vert;
            upto = 0;
        }
        let at = graph.position_of(curr_vert);
        let edges = graph.edges_at(at);
        proof {
            graph.lemma_position_unique(curr_vert, at as int);
        }
        let m = edges.len();
        let mut k: usize = 0;
        while k < m
            invariant
                graph.wf(),
                n == graph.vertices().len(),
                min_heap.wf(),
                count + min_heap@.len() == n,
                edges@ == graph.out(curr_vert),
                m == edges@.len(),
                k <= m,
                cur == curr_vert,
                upto == k,
                taken(*graph, min_heap.entries(), curr_vert),
                prim_along(prev@, min_heap@, curr_vert, graph.out(curr_vert), k as nat)
                    == prim_along(popped.0, popped.1, curr_vert, graph.out(curr_vert), 0),
                prim_inv(*graph, root, min_heap.entries(), prev@, via, order, count, cur, upto),
            decreases m - k,
        {
            let edge = edges.get(k);
            let ghost entries = min_heap.entries();
            let ghost links = prev@;
            let mut lowered = false;
            if let Some(index) = min_heap.vert_index(edge.to) {
                let dist = Distance::Dist(edge.weight_or_one());
                let current = match min_heap.get(index) {
                    Some(c) => c.distance,
                    None => Distance::Inf,
                };
                if dist < current {
                    proof {
                        lemma_prim_update(
                            *graph,
                            root,
                            entries,
                            links,
                            via,
                            order,
                            count,
                            curr_vert,
                            k as int,
                        );
                    }
                    prev.insert(edge.to, curr_vert);
                    min_heap.heap_decrease_key(index, VertAttributes::new_dist(edge.to, dist));
                    proof {
                        via = via.insert(edge.to, edge);
                    }
                    lowered = true;
                }
            }
            proof {
                if !lowered {
                    lemma_prim_skip(
                        *graph,
                        root,
                        entries,
                        links,
                        via,
                        order,
                        count,
                        curr_vert,
                        k as int,
                    );
                }
                upto = k + 1;
            }
            k += 1;
        }
    }
    proof {
        assert forall|v: u32| !min_heap.entries().contains_key(v) by {
            if min_heap.entries().contains_key(v) {
                let j = crate::heap::slot(min_heap@, v);
            }
        }
        lemma_prim_end(*graph, root, min_heap.entries(), prev@, via, order, count, cur, upto);
        lemma_prim_parts(*graph, root, min_heap.entries(), prev@, via, order, count, cur, upto);
        assert(prev@ == goal);
    }
    let mut i: usize = 0;
    while i < n
        invariant
            graph.wf(),
            n == graph.vertices().len(),
            i <= n,
            forall|v: u32| prev@.contains_key(v) <==> graph.vertices().contains(v),
            result@ == links_upto(*graph, prev@, i as nat),
        decreases n - i,
    {
        let from = graph.vertex_at(i);
        proof {
            assert(graph.vertices().contains(graph.vertices()[i as int]));
        }
        let to = match prev.get(&from) {
            Some(t) => *t,
            None => from,
        };
        let edges = graph.edges_at(i);
        let m = edges.len();
        let mut k: usize = 0;
        proof {
            assert(result@ + matching(edges@.subrange(0, 0), to) =~= result@);
        }
        let ghost base = result@;
        while k < m
            invariant
                edges@ == graph.edges_of(i as int),
                m == edges@.len(),
                k <= m,
                result@ == base + matching(edges@.subrange(0, k as int), to),
            decreases m - k,
        {
            let edge = edges.get(k);
            proof {
                assert(edges@.subrange(0, k + 1).drop_last() =~= edges@.subrange(0, k as int));
                assert(edges@.subrange(0, k + 1).last() == edge);
            }
            if edge.to == to {
                result.add_edge(edge);
                proof {
                    assert(base + matching(edges@.subrange(0, k as int), to).push(edge) =~= (base
                        + matching(edges@.subrange(0, k as int), to)).push(edge));
                }
            }
            k += 1;
        }
        proof {
            assert(edges@.subrange(0, m as int) =~= edges@);
        }
        i += 1;
    }
    proof {
        lemma_links_are_edges(*graph, prev@, n as nat);
    }
    result
}

} // verus!
