//! Why Kruskal's and Prim's choices are the lightest: routes through sets of
//! edges taken without direction, and the exchange of a heavier edge for a
//! lighter one across a cut.

use crate::edge::Edge;
use crate::graph::{all_edges, Graph};
use crate::mst::{
    ascending, distinct_links, greedy_forest, has_link, joined, lemma_candidates_are_edges,
    lemma_edge_is_candidate, lemma_greedy_forest, lemma_joined_reflexive, lemma_joined_symmetric,
    lemma_links_are_edges, lemma_sorted_by_value, links_upto, matching, prim_forest,
    spec_edges_sorted_asc,
};
use crate::paths::{
    is_path, lemma_edge_ends, lemma_path_prefix, lemma_weight_concat, path_weight, reachable,
};
use vstd::prelude::*;

verus! {

/// `r` leads from `s` to `t` along edges of `a`, each taken in either
/// direction.
pub open spec fn is_route(a: Seq<Edge>, r: Seq<Edge>, s: u32, t: u32) -> bool {
    &&& forall|i: int| 0 <= i < r.len() ==> has_link(a, #[trigger] r[i])
    &&& forall|i: int, j: int|
        0 <= i && j == i + 1 && j < r.len() ==> (#[trigger] r[i]).to == (#[trigger] r[j]).from
    &&& if r.len() == 0 {
        s == t
    } else {
        r[0].from == s && r.last().to == t
    }
}

/// Some route leads from `s` to `t` along edges of `a`.
pub open spec fn linked(a: Seq<Edge>, s: u32, t: u32) -> bool {
    exists|r: Seq<Edge>| is_route(a, r, s, t)
}

/// The edges of `a` link every vertex of the graph to `root`.
#[verifier::opaque]
pub open spec fn spans(g: Graph, a: Seq<Edge>, root: u32) -> bool {
    forall|v: u32| g.vertices().contains(v) ==> linked(a, root, v)
}

/// Every edge of the graph has its reverse in the graph.
#[verifier::opaque]
pub open spec fn symmetric(g: Graph) -> bool {
    forall|e: Edge| #[trigger] g.has_edge(e) ==> g.has_edge(e.reversed())
}

/// `r` walked backwards.
pub open spec fn backwards(r: Seq<Edge>) -> Seq<Edge> {
    Seq::new(r.len(), |i: int| r[r.len() - 1 - i].reversed())
}

/// A link of `a` in one direction is a link of `a` in the other.
pub proof fn lemma_link_reversed(a: Seq<Edge>, e: Edge)
    requires
        has_link(a, e),
    ensures
        has_link(a, e.reversed()),
{
    let j = choose|j: int| 0 <= j < a.len() && (#[trigger] a[j]).spec_same_ignore_direction(e);
    assert(e.reversed().reversed() == e);
    assert(a[j].spec_same_ignore_direction(e.reversed()));
}

/// Two routes laid end to end are a route.
pub proof fn lemma_route_concat(a: Seq<Edge>, r1: Seq<Edge>, r2: Seq<Edge>, s: u32, m: u32, t: u32)
    requires
        is_route(a, r1, s, m),
        is_route(a, r2, m, t),
    ensures
        is_route(a, r1 + r2, s, t),
{
    let r = r1 + r2;
    assert forall|i: int| 0 <= i < r.len() implies has_link(a, #[trigger] r[i]) by {
        if i < r1.len() {
            assert(r[i] == r1[i]);
        } else {
            assert(r[i] == r2[i - r1.len()]);
        }
    }
    assert forall|i: int, j: int| 0 <= i && j == i + 1 && j < r.len() implies (#[trigger] r[i]).to
        == (#[trigger] r[j]).from by {
        if i + 1 < r1.len() {
            assert(r[i] == r1[i] && r[j] == r1[j]);
        } else if i < r1.len() {
            assert(r[i] == r1[i] && r[j] == r2[0]);
            assert(r1[i] == r1.last());
        } else {
            assert(r[i] == r2[i - r1.len()] && r[j] == r2[j - r1.len()]);
        }
    }
    if r.len() > 0 {
        if r1.len() > 0 {
            assert(r[0] == r1[0]);
        } else {
            assert(r[0] == r2[0]);
        }
        if r2.len() > 0 {
            assert(r.last() == r2.last());
        } else {
            assert(r.last() == r1.last());
        }
    }
}

/// A route walked backwards is a route back.
pub proof fn lemma_route_backwards(a: Seq<Edge>, r: Seq<Edge>, s: u32, t: u32)
    requires
        is_route(a, r, s, t),
    ensures
        is_route(a, backwards(r), t, s),
{
    let b = backwards(r);
    assert forall|i: int| 0 <= i < b.len() implies has_link(a, #[trigger] b[i]) by {
        lemma_link_reversed(a, r[r.len() - 1 - i]);
    }
    assert forall|i: int, j: int| 0 <= i && j == i + 1 && j < b.len() implies (#[trigger] b[i]).to
        == (#[trigger] b[j]).from by {
        let k = r.len() - 1 - j;
        assert(r[k].to == r[k + 1].from);
    }
}

/// A route along edges of `a` is a route along edges of any set that has
/// the links of `a`.
pub proof fn lemma_route_widened(a: Seq<Edge>, b: Seq<Edge>, r: Seq<Edge>, s: u32, t: u32)
    requires
        is_route(a, r, s, t),
        forall|e: Edge| #[trigger] has_link(a, e) ==> has_link(b, e),
    ensures
        is_route(b, r, s, t),
{
}

/// An edge is a route between its ends.
pub proof fn lemma_route_of_one(a: Seq<Edge>, e: Edge)
    requires
        has_link(a, e),
    ensures
        is_route(a, seq![e], e.from, e.to),
{
}

/// A set with one more edge has the links of the set without it.
pub proof fn lemma_links_pushed(a: Seq<Edge>, g: Edge)
    ensures
        has_link(a.push(g), g),
        forall|e: Edge| #[trigger] has_link(a, e) ==> has_link(a.push(g), e),
{
    assert(a.push(g)[a.len() as int].spec_same_ignore_direction(g));
    assert forall|e: Edge| #[trigger] has_link(a, e) implies has_link(a.push(g), e) by {
        let j = choose|j: int| 0 <= j < a.len() && (#[trigger] a[j]).spec_same_ignore_direction(e);
        assert(a.push(g)[j].spec_same_ignore_direction(e));
    }
}

/// What the edges of `a` join, a route along them links.
pub proof fn lemma_joined_is_linked(a: Seq<Edge>, s: u32, t: u32)
    requires
        joined(a, s, t),
    ensures
        linked(a, s, t),
    decreases a.len(),
{
    if a.len() == 0 {
        assert(is_route(a, Seq::<Edge>::empty(), s, t));
    } else {
        let g = a.last();
        let rest = a.drop_last();
        assert(a =~= rest.push(g));
        lemma_links_pushed(rest, g);
        if joined(rest, s, t) {
            lemma_joined_is_linked(rest, s, t);
            let r = choose|r: Seq<Edge>| is_route(rest, r, s, t);
            lemma_route_widened(rest, a, r, s, t);
        } else if joined(rest, s, g.from) && joined(rest, g.to, t) {
            lemma_joined_is_linked(rest, s, g.from);
            lemma_joined_is_linked(rest, g.to, t);
            let r1 = choose|r: Seq<Edge>| is_route(rest, r, s, g.from);
            let r2 = choose|r: Seq<Edge>| is_route(rest, r, g.to, t);
            lemma_route_widened(rest, a, r1, s, g.from);
            lemma_route_widened(rest, a, r2, g.to, t);
            lemma_route_of_one(a, g);
            lemma_route_concat(a, r1, seq![g], s, g.from, g.to);
            lemma_route_concat(a, r1 + seq![g], r2, s, g.to, t);
        } else {
            lemma_joined_is_linked(rest, s, g.to);
            lemma_joined_is_linked(rest, g.from, t);
            let r1 = choose|r: Seq<Edge>| is_route(rest, r, s, g.to);
            let r2 = choose|r: Seq<Edge>| is_route(rest, r, g.from, t);
            lemma_route_widened(rest, a, r1, s, g.to);
            lemma_route_widened(rest, a, r2, g.from, t);
            lemma_link_reversed(a, g);
            lemma_route_of_one(a, g.reversed());
            lemma_route_concat(a, r1, seq![g.reversed()], s, g.to, g.from);
            lemma_route_concat(a, r1 + seq![g.reversed()], r2, s, g.from, t);
        }
    }
}

/// What is joined to one end of a link is joined to its other end.
pub proof fn lemma_joined_step(a: Seq<Edge>, s: u32, e: Edge)
    requires
        joined(a, s, e.from),
        has_link(a, e),
    ensures
        joined(a, s, e.to),
    decreases a.len(),
{
    if a.len() > 0 {
        let g = a.last();
        let rest = a.drop_last();
        let j = choose|j: int| 0 <= j < a.len() && (#[trigger] a[j]).spec_same_ignore_direction(e);
        if j == a.len() - 1 {
            lemma_joined_reflexive(rest, g.from);
            lemma_joined_reflexive(rest, g.to);
        } else {
            assert(rest[j] == a[j]);
            assert(has_link(rest, e));
            if joined(rest, s, e.from) {
                lemma_joined_step(rest, s, e);
            } else if joined(rest, s, g.from) && joined(rest, g.to, e.from) {
                lemma_joined_step(rest, g.to, e);
            } else {
                lemma_joined_step(rest, g.from, e);
            }
        }
    }
}

/// What a route along the edges of `a` links, the edges of `a` join.
pub proof fn lemma_route_is_joined(a: Seq<Edge>, r: Seq<Edge>, s: u32, t: u32)
    requires
        is_route(a, r, s, t),
    ensures
        joined(a, s, t),
    decreases r.len(),
{
    if r.len() == 0 {
        lemma_joined_reflexive(a, s);
    } else {
        let q = r.drop_last();
        let e = r.last();
        assert forall|i: int| 0 <= i < q.len() implies has_link(a, #[trigger] q[i]) by {
            assert(q[i] == r[i]);
        }
        assert forall|i: int, j: int| 0 <= i && j == i + 1 && j < q.len() implies (
        #[trigger] q[i]).to == (#[trigger] q[j]).from by {
            assert(q[i] == r[i] && q[j] == r[j]);
        }
        if q.len() > 0 {
            assert(q[0] == r[0]);
            assert(q.last() == r[r.len() - 2]);
            assert(r[r.len() - 2].to == r[r.len() - 1].from);
        }
        assert(is_route(a, q, s, e.from));
        lemma_route_is_joined(a, q, s, e.from);
        lemma_joined_step(a, s, e);
    }
}

/// Without one of its edges a sequence weighs less by that edge's cost.
pub proof fn lemma_weight_removed(s: Seq<Edge>, j: int)
    requires
        0 <= j < s.len(),
    ensures
        path_weight(s.remove(j)) + s[j].cost() == path_weight(s),
    decreases s.len(),
{
    if j == s.len() - 1 {
        assert(s.remove(j) =~= s.drop_last());
    } else {
        lemma_weight_removed(s.drop_last(), j);
        assert(s.remove(j).drop_last() =~= s.drop_last().remove(j));
        assert(s.remove(j).last() == s.last());
    }
}

/// A route from inside a set of vertices to outside it leaves the set a last
/// time, and stays outside from then on.
pub proof fn lemma_last_crossing(
    a: Seq<Edge>,
    r: Seq<Edge>,
    s: u32,
    t: u32,
    inside: spec_fn(u32) -> bool,
) -> (i: int)
    requires
        is_route(a, r, s, t),
        inside(s),
        !inside(t),
    ensures
        0 <= i < r.len(),
        inside(r[i].from),
        !inside(r[i].to),
        forall|k: int| i < k < r.len() ==> !inside((#[trigger] r[k]).from) && !inside(r[k].to),
    decreases r.len(),
{
    let e = r.last();
    if inside(e.from) {
        r.len() - 1
    } else {
        let q = r.drop_last();
        assert forall|i: int| 0 <= i < q.len() implies has_link(a, #[trigger] q[i]) by {
            assert(q[i] == r[i]);
        }
        assert forall|i: int, j: int| 0 <= i && j == i + 1 && j < q.len() implies (
        #[trigger] q[i]).to == (#[trigger] q[j]).from by {
            assert(q[i] == r[i] && q[j] == r[j]);
        }
        if q.len() > 0 {
            assert(q[0] == r[0]);
            assert(q.last() == r[r.len() - 2]);
            assert(r[r.len() - 2].to == r[r.len() - 1].from);
        }
        assert(is_route(a, q, s, e.from));
        let i = lemma_last_crossing(a, q, s, e.from, inside);
        assert forall|k: int| i < k < r.len() implies !inside((#[trigger] r[k]).from) && !inside(
            r[k].to,
        ) by {
            if k < q.len() {
                assert(r[k] == q[k]);
            }
        }
        assert(r[i] == q[i]);
        i
    }
}

/// Where `b` has a route between the ends of `f` and every link of `a`
/// other than `f`, whatever `a` links, `b` links.
pub proof fn lemma_rerouted(
    a: Seq<Edge>,
    b: Seq<Edge>,
    f: Edge,
    d: Seq<Edge>,
    r: Seq<Edge>,
    s: u32,
    t: u32,
)
    requires
        is_route(b, d, f.from, f.to),
        forall|e: Edge| #[trigger] has_link(a, e) && e != f && e != f.reversed() ==> has_link(b, e),
        is_route(a, r, s, t),
    ensures
        linked(b, s, t),
    decreases r.len(),
{
    if r.len() == 0 {
        assert(is_route(b, Seq::<Edge>::empty(), s, t));
    } else {
        let q = r.drop_last();
        let e = r.last();
        assert forall|i: int| 0 <= i < q.len() implies has_link(a, #[trigger] q[i]) by {
            assert(q[i] == r[i]);
        }
        assert forall|i: int, j: int| 0 <= i && j == i + 1 && j < q.len() implies (
        #[trigger] q[i]).to == (#[trigger] q[j]).from by {
            assert(q[i] == r[i] && q[j] == r[j]);
        }
        if q.len() > 0 {
            assert(q[0] == r[0]);
            assert(q.last() == r[r.len() - 2]);
            assert(r[r.len() - 2].to == r[r.len() - 1].from);
        }
        assert(is_route(a, q, s, e.from));
        lemma_rerouted(a, b, f, d, q, s, e.from);
        let head = choose|x: Seq<Edge>| is_route(b, x, s, e.from);
        if e == f {
            lemma_route_concat(b, head, d, s, e.from, e.to);
        } else if e == f.reversed() {
            lemma_route_backwards(b, d, f.from, f.to);
            lemma_route_concat(b, head, backwards(d), s, e.from, e.to);
        } else {
            assert(has_link(a, r[r.len() - 1]));
            lemma_route_of_one(b, e);
            lemma_route_concat(b, head, seq![e], s, e.from, e.to);
        }
    }
}

/// The links of the edges `chosen`, `e` and `rest` without its edge at `j`:
/// they are the links of `chosen`, the link `e`, and every link of `chosen`
/// and `rest` other than the one at `j`.
pub proof fn lemma_exchange_links(chosen: Seq<Edge>, rest: Seq<Edge>, j: int, e: Edge, f: Edge)
    requires
        0 <= j < rest.len(),
        rest[j].spec_same_ignore_direction(f),
    ensures
        has_link(chosen.push(e) + rest.remove(j), e),
        forall|x: Edge| #[trigger]
            has_link(chosen, x) ==> has_link(chosen.push(e) + rest.remove(j), x),
        forall|x: Edge|
            #[trigger] has_link(chosen + rest, x) && x != f && x != f.reversed() ==> has_link(
                chosen.push(e) + rest.remove(j),
                x,
            ),
{
    let a = chosen + rest;
    let rest2 = rest.remove(j);
    let b = chosen.push(e) + rest2;
    assert forall|x: Edge| #[trigger] has_link(chosen, x) implies has_link(b, x) by {
        let k = choose|k: int|
            0 <= k < chosen.len() && (#[trigger] chosen[k]).spec_same_ignore_direction(x);
        assert(b[k] == chosen[k]);
        assert(b[k].spec_same_ignore_direction(x));
    }
    assert(has_link(b, e)) by {
        assert(b[chosen.len() as int] == e);
        assert(b[chosen.len() as int].spec_same_ignore_direction(e));
    }
    assert forall|x: Edge| #[trigger] has_link(a, x) && x != f && x != f.reversed() implies has_link(
        b,
        x,
    ) by {
        let k = choose|k: int| 0 <= k < a.len() && (#[trigger] a[k]).spec_same_ignore_direction(x);
        if k < chosen.len() {
            assert(b[k] == a[k]);
            assert(b[k].spec_same_ignore_direction(x));
        } else {
            let m = k - chosen.len();
            assert(a[k] == rest[m]);
            if m == j {
                assert(x.reversed().reversed() == x);
                assert(f.reversed().reversed() == f);
                assert(false);
            } else if m < j {
                assert(rest2[m] == rest[m]);
                assert(b[chosen.len() + 1 + m] == rest2[m]);
                assert(b[chosen.len() + 1 + m].spec_same_ignore_direction(x));
            } else {
                assert(rest2[m - 1] == rest[m]);
                assert(b[chosen.len() + 1 + (m - 1)] == rest2[m - 1]);
                assert(b[chosen.len() + 1 + (m - 1)].spec_same_ignore_direction(x));
            }
        }
    }
}

/// What is left of a route behind its edge at `i` is a route from that
/// edge's target, along the edges of any set that has the links used.
pub proof fn lemma_route_tail(a: Seq<Edge>, b: Seq<Edge>, r: Seq<Edge>, s: u32, t: u32, i: int)
    requires
        is_route(a, r, s, t),
        0 <= i < r.len(),
        forall|k: int| i < k < r.len() ==> has_link(b, #[trigger] r[k]),
    ensures
        is_route(b, r.subrange(i + 1, r.len() as int), r[i].to, t),
    decreases r.len() - i,
{
    let tail = r.subrange(i + 1, r.len() as int);
    if i == r.len() - 1 {
        assert(tail.len() == 0);
    } else {
        lemma_route_tail(a, b, r, s, t, i + 1);
        let shorter = r.subrange(i + 2, r.len() as int);
        assert(r[i].to == r[i + 1].from);
        assert(has_link(b, r[i + 1]));
        lemma_route_of_one(b, r[i + 1]);
        lemma_route_concat(b, seq![r[i + 1]], shorter, r[i + 1].from, r[i + 1].to, t);
        assert(tail =~= seq![r[i + 1]] + shorter);
    }
}

/// The ends of an edge of a spanning set are linked by it.
pub proof fn lemma_spanned_ends(g: Graph, a: Seq<Edge>, root: u32, e: Edge) -> (r: Seq<Edge>)
    requires
        g.wf(),
        spans(g, a, root),
        g.has_edge(e),
    ensures
        is_route(a, r, e.from, e.to),
{
    lemma_edge_ends(g, e);
    assert(linked(a, root, e.from) && linked(a, root, e.to)) by {
        reveal(spans);
    }
    let r1 = choose|r: Seq<Edge>| is_route(a, r, root, e.from);
    let r2 = choose|r: Seq<Edge>| is_route(a, r, root, e.to);
    lemma_route_backwards(a, r1, root, e.from);
    lemma_route_concat(a, backwards(r1), r2, e.from, root, e.to);
    backwards(r1) + r2
}

/// The way round a crossing edge `f`: back from its source to the source of
/// `e`, across `e`, and back along the tail of the route behind `f`.
proof fn lemma_detour(
    b: Seq<Edge>,
    back: Seq<Edge>,
    tail: Seq<Edge>,
    e: Edge,
    f: Edge,
    end: u32,
) -> (d: Seq<Edge>)
    requires
        is_route(b, back, e.from, f.from),
        has_link(b, e),
        is_route(b, tail, f.to, end),
        end == e.to,
    ensures
        is_route(b, d, f.from, f.to),
{
    lemma_route_backwards(b, back, e.from, f.from);
    lemma_route_of_one(b, e);
    lemma_route_concat(b, backwards(back), seq![e], f.from, e.from, e.to);
    lemma_route_backwards(b, tail, f.to, e.to);
    lemma_route_concat(b, backwards(back) + seq![e], backwards(tail), f.from, e.to, f.to);
    backwards(back) + seq![e] + backwards(tail)
}

/// The exchange across a cut. The edges `chosen` and `rest` together span
/// the graph, and no chosen edge leaves the set `inside`, which the chosen
/// edges link to the source of `e`. Then `e`, a lightest edge of the graph
/// that leaves `inside`, can take the place of an edge of `rest`: the rest
/// without that edge weighs less by the cost of `e` at least, and together
/// with the chosen edges and `e` it still spans the graph.
pub proof fn lemma_exchange(
    g: Graph,
    root: u32,
    chosen: Seq<Edge>,
    rest: Seq<Edge>,
    e: Edge,
    inside: spec_fn(u32) -> bool,
) -> (rest2: Seq<Edge>)
    requires
        g.wf(),
        symmetric(g),
        spans(g, chosen + rest, root),
        forall|j: int| 0 <= j < rest.len() ==> g.has_edge(#[trigger] rest[j]),
        g.has_edge(e),
        inside(e.from),
        !inside(e.to),
        forall|j: int|
            0 <= j < chosen.len() ==> inside((#[trigger] chosen[j]).from) == inside(chosen[j].to),
        forall|x: u32| g.vertices().contains(x) && #[trigger] inside(x) ==> linked(chosen, e.from, x),
        forall|d: Edge|
            #[trigger] g.has_edge(d) && inside(d.from) && !inside(d.to) ==> e.cost() <= d.cost(),
    ensures
        spans(g, chosen.push(e) + rest2, root),
        forall|j: int| 0 <= j < rest2.len() ==> g.has_edge(#[trigger] rest2[j]),
        path_weight(rest2) + e.cost() <= path_weight(rest),
{
    let a = chosen + rest;
    let r = lemma_spanned_ends(g, a, root, e);
    let i = lemma_last_crossing(a, r, e.from, e.to, inside);
    let f = r[i];
    let ja = choose|j: int| 0 <= j < a.len() && (#[trigger] a[j]).spec_same_ignore_direction(f);
    assert(ja >= chosen.len()) by {
        if ja < chosen.len() {
            assert(a[ja] == chosen[ja]);
            assert(inside(chosen[ja].from) == inside(chosen[ja].to));
        }
    }
    let j = ja - chosen.len();
    assert(a[ja] == rest[j]);
    let rest2 = rest.remove(j);
    let b = chosen.push(e) + rest2;
    assert(g.has_edge(f)) by {
        reveal(symmetric);
        assert(g.has_edge(rest[j]));
        if rest[j] != f {
            assert(rest[j].reversed() == f);
        }
    }
    assert(path_weight(rest2) + e.cost() <= path_weight(rest)) by {
        lemma_weight_removed(rest, j);
        assert(f.cost() == rest[j].cost());
    }
    assert forall|k: int| 0 <= k < rest2.len() implies g.has_edge(#[trigger] rest2[k]) by {
        if k < j {
            assert(rest2[k] == rest[k]);
        } else {
            assert(rest2[k] == rest[k + 1]);
        }
    }
    lemma_exchange_links(chosen, rest, j, e, f);
    lemma_edge_ends(g, f);
    let back = choose|x: Seq<Edge>| is_route(chosen, x, e.from, f.from);
    lemma_route_widened(chosen, b, back, e.from, f.from);
    assert forall|k: int| i < k < r.len() implies has_link(b, #[trigger] r[k]) by {
        assert(has_link(a, r[k]));
        assert(!inside(r[k].from) && !inside(r[k].to));
    }
    lemma_route_tail(a, b, r, e.from, e.to, i);
    let d = lemma_detour(b, back, r.subrange(i + 1, r.len() as int), e, f, e.to);
    assert(spans(g, b, root)) by {
        reveal(spans);
        assert forall|v: u32| g.vertices().contains(v) implies linked(b, root, v) by {
            let way = choose|x: Seq<Edge>| is_route(a, x, root, v);
            lemma_rerouted(a, b, f, d, way, root, v);
        }
    }
    rest2
}

/// No edge of the graph has the weight zero.
pub open spec fn positively_weighted(g: Graph) -> bool {
    forall|e: Edge| #[trigger] g.has_edge(e) ==> e.value != Some(0u32)
}

/// Among edges without a zero weight, the order by weight is the order by
/// cost.
pub proof fn lemma_rank_orders_cost(a: Edge, b: Edge)
    requires
        a.value != Some(0u32),
        b.value != Some(0u32),
        a.value_rank() <= b.value_rank(),
    ensures
        a.cost() <= b.cost(),
{
}

/// What the edges of `a` join to a vertex that they join to another, they
/// join to that other.
pub proof fn lemma_joined_transitive(a: Seq<Edge>, x: u32, y: u32, z: u32)
    requires
        joined(a, x, y),
        joined(a, y, z),
    ensures
        joined(a, x, z),
{
    lemma_joined_is_linked(a, x, y);
    lemma_joined_is_linked(a, y, z);
    let r1 = choose|r: Seq<Edge>| is_route(a, r, x, y);
    let r2 = choose|r: Seq<Edge>| is_route(a, r, y, z);
    lemma_route_concat(a, r1, r2, x, y, z);
    lemma_route_is_joined(a, r1 + r2, x, z);
}

/// What Kruskal's rule has accepted of the first candidates stays joined
/// when it goes on to further candidates.
pub proof fn lemma_greedy_grows(c: Seq<Edge>, m: nat, k: nat, x: u32, y: u32)
    requires
        m <= k <= c.len(),
        joined(greedy_forest(c.subrange(0, m as int)), x, y),
    ensures
        joined(greedy_forest(c.subrange(0, k as int)), x, y),
    decreases k,
{
    if m < k {
        lemma_greedy_grows(c, m, (k - 1) as nat, x, y);
        let now = c.subrange(0, k as int);
        assert(now.drop_last() =~= c.subrange(0, k - 1));
        let before = greedy_forest(c.subrange(0, k - 1));
        let after = greedy_forest(now);
        if after != before {
            assert(after == before.push(now.last()));
            assert(after.drop_last() =~= before);
        }
    }
}

/// The ends of a candidate that Kruskal's rule has dealt with are joined by
/// what it has accepted since.
pub proof fn lemma_dealt_with_is_joined(c: Seq<Edge>, m: int, k: nat)
    requires
        0 <= m < k <= c.len(),
    ensures
        joined(greedy_forest(c.subrange(0, k as int)), c[m].from, c[m].to),
{
    let upto = c.subrange(0, m + 1);
    lemma_greedy_forest(upto);
    assert(upto[m] == c[m]);
    lemma_greedy_grows(c, (m + 1) as nat, k, c[m].from, c[m].to);
}

/// The candidates `c` are edges of the graph in ascending order of weight,
/// and hold a link for every edge of the graph.
#[verifier::opaque]
pub open spec fn candidates(g: Graph, c: Seq<Edge>) -> bool {
    &&& ascending(c)
    &&& forall|j: int| 0 <= j < c.len() ==> g.has_edge(#[trigger] c[j])
    &&& forall|d: Edge| #[trigger] g.has_edge(d) ==> has_link(c, d)
}

/// A candidate that Kruskal's rule accepts is a lightest edge that leaves
/// the set of vertices joined to its source by what was accepted before.
proof fn lemma_accepted_is_lightest(g: Graph, c: Seq<Edge>, i: int, d: Edge)
    requires
        positively_weighted(g),
        candidates(g, c),
        0 <= i < c.len(),
        g.has_edge(d),
        joined(greedy_forest(c.subrange(0, i)), c[i].from, d.from),
        !joined(greedy_forest(c.subrange(0, i)), c[i].from, d.to),
    ensures
        c[i].cost() <= d.cost(),
{
    let chosen = greedy_forest(c.subrange(0, i));
    let e = c[i];
    assert(has_link(c, d)) by {
        reveal(candidates);
    }
    let m = choose|m: int| 0 <= m < c.len() && (#[trigger] c[m]).spec_same_ignore_direction(d);
    if m < i {
        lemma_dealt_with_is_joined(c, m, i as nat);
        if c[m] != d {
            lemma_joined_symmetric(chosen, c[m].from, c[m].to);
        }
        lemma_joined_transitive(chosen, e.from, d.from, d.to);
    } else {
        assert(g.has_edge(c[i]) && g.has_edge(c[m]) && e.value_rank() <= c[m].value_rank()) by {
            reveal(candidates);
        }
        lemma_rank_orders_cost(e, c[m]);
    }
}

/// What Kruskal's rule has accepted does not leave the set of vertices that
/// it joins to `s`, and links every vertex of that set to `s`.
proof fn lemma_component(chosen: Seq<Edge>, s: u32)
    ensures
        joined(chosen, s, s),
        forall|j: int|
            0 <= j < chosen.len() ==> joined(chosen, s, (#[trigger] chosen[j]).from) == joined(
                chosen,
                s,
                chosen[j].to,
            ),
        forall|x: u32| #[trigger] joined(chosen, s, x) ==> linked(chosen, s, x),
{
    lemma_joined_reflexive(chosen, s);
    assert forall|j: int| 0 <= j < chosen.len() implies joined(
        chosen,
        s,
        (#[trigger] chosen[j]).from,
    ) == joined(chosen, s, chosen[j].to) by {
        let d = chosen[j];
        assert(d.spec_same_ignore_direction(d));
        assert(has_link(chosen, d));
        lemma_link_reversed(chosen, d);
        if joined(chosen, s, d.from) {
            lemma_joined_step(chosen, s, d);
        }
        if joined(chosen, s, d.to) {
            lemma_joined_step(chosen, s, d.reversed());
        }
    }
    assert forall|x: u32| #[trigger] joined(chosen, s, x) implies linked(chosen, s, x) by {
        lemma_joined_is_linked(chosen, s, x);
    }
}

/// After any number of candidates, what Kruskal's rule has accepted can be
/// completed by edges of the graph to a set that spans the graph and weighs
/// no more than the spanning set `t`.
proof fn lemma_kruskal_prefix(g: Graph, root: u32, t: Seq<Edge>, c: Seq<Edge>, i: nat) -> (rest: Seq<
    Edge,
>)
    requires
        g.wf(),
        symmetric(g),
        positively_weighted(g),
        candidates(g, c),
        spans(g, t, root),
        forall|j: int| 0 <= j < t.len() ==> g.has_edge(#[trigger] t[j]),
        i <= c.len(),
    ensures
        spans(g, greedy_forest(c.subrange(0, i as int)) + rest, root),
        forall|j: int| 0 <= j < rest.len() ==> g.has_edge(#[trigger] rest[j]),
        path_weight(greedy_forest(c.subrange(0, i as int))) + path_weight(rest) <= path_weight(t),
    decreases i,
{
    if i == 0 {
        assert(greedy_forest(c.subrange(0, 0)) =~= Seq::<Edge>::empty());
        assert(greedy_forest(c.subrange(0, 0)) + t =~= t);
        assert(path_weight(Seq::<Edge>::empty()) == 0);
        t
    } else {
        let rest0 = lemma_kruskal_prefix(g, root, t, c, (i - 1) as nat);
        let now = c.subrange(0, i as int);
        assert(now.drop_last() =~= c.subrange(0, i - 1));
        let chosen = greedy_forest(c.subrange(0, i - 1));
        let e = c[i - 1];
        assert(now.last() == e);
        if joined(chosen, e.from, e.to) {
            rest0
        } else {
            assert(greedy_forest(now) == chosen.push(e));
            assert(path_weight(chosen.push(e)) == path_weight(chosen) + e.cost()) by {
                assert(chosen.push(e).drop_last() =~= chosen);
            }
            assert(g.has_edge(e)) by {
                reveal(candidates);
            }
            let inside = |x: u32| joined(chosen, e.from, x);
            lemma_component(chosen, e.from);
            assert forall|d: Edge|
                #[trigger] g.has_edge(d) && inside(d.from) && !inside(d.to) implies e.cost()
                <= d.cost() by {
                lemma_accepted_is_lightest(g, c, i - 1, d);
            }
            lemma_exchange(g, root, chosen, rest0, e, inside)
        }
    }
}

/// Kruskal's forest weighs no more than any set of edges that spans the
/// graph, where the graph is symmetric and has no edge of weight zero.
pub proof fn lemma_kruskal_is_lightest(g: Graph, root: u32, t: Seq<Edge>)
    requires
        g.wf(),
        symmetric(g),
        positively_weighted(g),
        spans(g, t, root),
        forall|j: int| 0 <= j < t.len() ==> g.has_edge(#[trigger] t[j]),
    ensures
        path_weight(greedy_forest(spec_edges_sorted_asc(g))) <= path_weight(t),
{
    let c = spec_edges_sorted_asc(g);
    assert(candidates(g, c)) by {
        reveal(candidates);
        lemma_candidates_are_edges(g);
        lemma_sorted_by_value(distinct_links(all_edges(g)));
        assert forall|d: Edge| #[trigger] g.has_edge(d) implies has_link(c, d) by {
            lemma_edge_is_candidate(g, d);
        }
    }
    let rest = lemma_kruskal_prefix(g, root, t, c, c.len());
    assert(c.subrange(0, c.len() as int) =~= c);
}

/// Every vertex of the graph can be reached from `root`.
pub open spec fn connected_from(g: Graph, root: u32) -> bool {
    forall|v: u32| g.vertices().contains(v) ==> reachable(g, root, v)
}

/// A path through the graph is a route along its own edges.
pub proof fn lemma_path_is_route(g: Graph, p: Seq<Edge>, s: u32, t: u32)
    requires
        is_path(g, p, s, t),
    ensures
        is_route(p, p, s, t),
{
    assert forall|i: int| 0 <= i < p.len() implies has_link(p, #[trigger] p[i]) by {
        assert(p[i].spec_same_ignore_direction(p[i]));
    }
    assert forall|i: int, j: int| 0 <= i && j == i + 1 && j < p.len() implies (#[trigger] p[i]).to
        == (#[trigger] p[j]).from by {
        assert(p[i].to == p[i + 1].from);
    }
}

/// A path from inside a set of vertices to outside it holds an edge of the
/// graph that leaves the set.
pub proof fn lemma_crossing_edge(
    g: Graph,
    p: Seq<Edge>,
    s: u32,
    t: u32,
    inside: spec_fn(u32) -> bool,
) -> (e: Edge)
    requires
        is_path(g, p, s, t),
        inside(s),
        !inside(t),
    ensures
        g.has_edge(e),
        inside(e.from),
        !inside(e.to),
{
    lemma_path_is_route(g, p, s, t);
    let i = lemma_last_crossing(p, p, s, t, inside);
    p[i]
}

/// What the forest says of an edge across the cut before a vertex.
proof fn lemma_cut(
    g: Graph,
    root: u32,
    prev: Map<u32, u32>,
    order: Map<u32, nat>,
    via: Map<u32, Edge>,
    v: u32,
    e: Edge,
)
    requires
        prim_forest(g, root, prev, order, via),
        g.vertices().contains(v),
        g.has_edge(e),
        order[e.from] < order[v] <= order[e.to],
    ensures
        prev[v] != v,
        e.cost() >= via[v].cost(),
{
}

/// In a forest grown by Prim's rule over a graph that is connected from the
/// root, every vertex but the root has a predecessor other than itself.
pub proof fn lemma_everyone_has_parent(
    g: Graph,
    root: u32,
    prev: Map<u32, u32>,
    order: Map<u32, nat>,
    via: Map<u32, Edge>,
    v: u32,
)
    requires
        g.wf(),
        g.vertices().contains(root),
        connected_from(g, root),
        prim_forest(g, root, prev, order, via),
        g.vertices().contains(v),
        v != root,
    ensures
        prev[v] != v,
        order[v] >= 1,
{
    assert(order[root] == 0 && order[v] != order[root]);
    let bar = order[v];
    let inside = |x: u32| order[x] < bar;
    assert(reachable(g, root, v));
    let p = choose|p: Seq<Edge>| is_path(g, p, root, v);
    let e = lemma_crossing_edge(g, p, root, v, inside);
    lemma_cut(g, root, prev, order, via, v, e);
}

/// The edges by which the first `k` vertices of the graph were reached, for
/// those among them that were taken as one of the first `bound` after the
/// root.
pub open spec fn chosen_upto(
    g: Graph,
    order: Map<u32, nat>,
    via: Map<u32, Edge>,
    k: nat,
    bound: nat,
) -> Seq<Edge>
    decreases k,
{
    if k == 0 {
        Seq::empty()
    } else {
        let v = g.vertices()[k - 1];
        let before = chosen_upto(g, order, via, (k - 1) as nat, bound);
        if 1 <= order[v] <= bound {
            before.push(via[v])
        } else {
            before
        }
    }
}

/// The members of `chosen_upto` are the edges of the vertices it is about.
pub proof fn lemma_chosen_members(
    g: Graph,
    order: Map<u32, nat>,
    via: Map<u32, Edge>,
    k: nat,
    bound: nat,
)
    requires
        k <= g.vertices().len(),
    ensures
        forall|j: int|
            0 <= j < chosen_upto(g, order, via, k, bound).len() ==> exists|i: int|
                0 <= i < k && 1 <= order[g.vertices()[i]] <= bound && #[trigger] chosen_upto(
                    g,
                    order,
                    via,
                    k,
                    bound,
                )[j] == via[#[trigger] g.vertices()[i]],
        forall|i: int|
            0 <= i < k && 1 <= order[#[trigger] g.vertices()[i]] <= bound ==> chosen_upto(
                g,
                order,
                via,
                k,
                bound,
            ).contains(via[g.vertices()[i]]),
    decreases k,
{
    if k > 0 {
        lemma_chosen_members(g, order, via, (k - 1) as nat, bound);
        let now = chosen_upto(g, order, via, k, bound);
        let before = chosen_upto(g, order, via, (k - 1) as nat, bound);
        let v = g.vertices()[k - 1];
        assert forall|j: int| 0 <= j < now.len() implies exists|i: int|
            0 <= i < k && 1 <= order[g.vertices()[i]] <= bound && #[trigger] now[j]
                == via[#[trigger] g.vertices()[i]] by {
            if j < before.len() {
                assert(now[j] == before[j]);
                let i = choose|i: int|
                    0 <= i < k - 1 && 1 <= order[g.vertices()[i]] <= bound && before[j]
                        == via[#[trigger] g.vertices()[i]];
                assert(0 <= i < k && now[j] == via[g.vertices()[i]]);
            } else {
                assert(now[j] == via[g.vertices()[k - 1]]);
            }
        }
        assert forall|i: int|
            0 <= i < k && 1 <= order[#[trigger] g.vertices()[i]] <= bound implies now.contains(
            via[g.vertices()[i]],
        ) by {
            if i < k - 1 {
                assert(before.contains(via[g.vertices()[i]]));
                let j = choose|j: int|
                    0 <= j < before.len() && before[j] == via[g.vertices()[i]];
                assert(now[j] == before[j]);
            } else {
                assert(now[now.len() - 1] == via[v]);
            }
        }
    }
}

/// Raising the bound by one adds the edge of the one vertex that was taken
/// at that place among the first `k`, if there is one, and nothing else.
pub proof fn lemma_chosen_grows(
    g: Graph,
    order: Map<u32, nat>,
    via: Map<u32, Edge>,
    k: nat,
    bound: nat,
)
    requires
        g.wf(),
        k <= g.vertices().len(),
        forall|a: u32, b: u32|
            g.vertices().contains(a) && g.vertices().contains(b) && a != b ==> #[trigger] order[a]
                != #[trigger] order[b],
    ensures
        (forall|i: int| 0 <= i < k ==> order[#[trigger] g.vertices()[i]] != bound + 1)
            ==> chosen_upto(g, order, via, k, bound + 1) == chosen_upto(g, order, via, k, bound),
        forall|i: int|
            0 <= i < k && order[#[trigger] g.vertices()[i]] == bound + 1 ==> path_weight(
                chosen_upto(g, order, via, k, bound + 1),
            ) == path_weight(chosen_upto(g, order, via, k, bound)) + via[g.vertices()[i]].cost(),
    decreases k,
{
    if k > 0 {
        lemma_chosen_grows(g, order, via, (k - 1) as nat, bound);
        let v = g.vertices()[k - 1];
        let low = chosen_upto(g, order, via, k, bound);
        let high = chosen_upto(g, order, via, k, bound + 1);
        let low0 = chosen_upto(g, order, via, (k - 1) as nat, bound);
        let high0 = chosen_upto(g, order, via, (k - 1) as nat, bound + 1);
        assert(g.vertices().contains(v));
        assert forall|i: int|
            0 <= i < k && order[#[trigger] g.vertices()[i]] == bound + 1 implies path_weight(high)
            == path_weight(low) + via[g.vertices()[i]].cost() by {
            let w = g.vertices()[i];
            assert(g.vertices().contains(w));
            if i == k - 1 {
                assert forall|m: int| 0 <= m < k - 1 implies order[#[trigger] g.vertices()[m]]
                    != bound + 1 by {
                    assert(g.vertices().contains(g.vertices()[m]));
                    assert(g.vertices()[m] != v);
                }
                assert(high0 == low0);
                assert(high == low0.push(via[v]));
                assert(low == low0);
                assert(high.drop_last() =~= low0);
            } else {
                assert(v != w);
                assert(order[v] != bound + 1);
                if 1 <= order[v] <= bound {
                    assert(high == high0.push(via[v]));
                    assert(low == low0.push(via[v]));
                    assert(high.drop_last() =~= high0);
                    assert(low.drop_last() =~= low0);
                }
            }
        }
    }
}

/// The chosen edges link every vertex taken within the bound to the root.
pub proof fn lemma_tree_links(
    g: Graph,
    root: u32,
    prev: Map<u32, u32>,
    order: Map<u32, nat>,
    via: Map<u32, Edge>,
    bound: nat,
    v: u32,
)
    requires
        g.wf(),
        g.vertices().contains(root),
        connected_from(g, root),
        prim_forest(g, root, prev, order, via),
        g.vertices().contains(v),
        order[v] <= bound,
    ensures
        linked(chosen_upto(g, order, via, g.vertices().len(), bound), root, v),
    decreases order[v],
{
    let f = chosen_upto(g, order, via, g.vertices().len(), bound);
    if v == root {
        assert(is_route(f, Seq::<Edge>::empty(), root, v));
    } else {
        lemma_everyone_has_parent(g, root, prev, order, via, v);
        let u = prev[v];
        lemma_tree_links(g, root, prev, order, via, bound, u);
        let head = choose|r: Seq<Edge>| is_route(f, r, root, u);
        lemma_chosen_members(g, order, via, g.vertices().len(), bound);
        let i = g.vertices().index_of(v);
        assert(g.vertices()[i] == v);
        assert(f.contains(via[g.vertices()[i]]));
        let j = choose|j: int| 0 <= j < f.len() && f[j] == via[v];
        assert(f[j].spec_same_ignore_direction(via[v]));
        lemma_route_of_one(f, via[v]);
        lemma_route_concat(f, head, seq![via[v]], root, u, v);
    }
}

/// A set that has the links of a spanning set spans too.
pub proof fn lemma_spans_widened(g: Graph, a: Seq<Edge>, b: Seq<Edge>, root: u32)
    requires
        spans(g, a, root),
        forall|x: Edge| #[trigger] has_link(a, x) ==> has_link(b, x),
    ensures
        spans(g, b, root),
{
    reveal(spans);
    assert forall|v: u32| g.vertices().contains(v) implies linked(b, root, v) by {
        let r = choose|r: Seq<Edge>| is_route(a, r, root, v);
        lemma_route_widened(a, b, r, root, v);
    }
}

/// Where `b` holds every edge of `a`, `b` followed by `rest` has the links
/// of `a` followed by `rest`.
pub proof fn lemma_links_included(a: Seq<Edge>, b: Seq<Edge>, rest: Seq<Edge>)
    requires
        forall|j: int| 0 <= j < a.len() ==> b.contains(#[trigger] a[j]),
    ensures
        forall|x: Edge| #[trigger] has_link(a + rest, x) ==> has_link(b + rest, x),
{
    assert forall|x: Edge| #[trigger] has_link(a + rest, x) implies has_link(b + rest, x) by {
        let k = choose|k: int|
            0 <= k < (a + rest).len() && (#[trigger] (a + rest)[k]).spec_same_ignore_direction(x);
        if k < a.len() {
            assert((a + rest)[k] == a[k]);
            assert(b.contains(a[k]));
            let m = choose|m: int| 0 <= m < b.len() && b[m] == a[k];
            assert((b + rest)[m] == b[m]);
            assert((b + rest)[m].spec_same_ignore_direction(x));
        } else {
            assert((a + rest)[k] == rest[k - a.len()]);
            assert((b + rest)[b.len() + (k - a.len())] == rest[k - a.len()]);
            assert((b + rest)[b.len() + (k - a.len())].spec_same_ignore_direction(x));
        }
    }
}

/// With the bound zero nothing is chosen.
pub proof fn lemma_chosen_none(g: Graph, order: Map<u32, nat>, via: Map<u32, Edge>, k: nat)
    ensures
        chosen_upto(g, order, via, k, 0) == Seq::<Edge>::empty(),
    decreases k,
{
    if k > 0 {
        lemma_chosen_none(g, order, via, (k - 1) as nat);
    }
}

/// The edge by which Prim's rule reached the vertex `v`, taken at place
/// `bound + 1`, can be exchanged into a spanning set that holds the edges
/// chosen within the bound.
proof fn lemma_prim_step(
    g: Graph,
    root: u32,
    prev: Map<u32, u32>,
    order: Map<u32, nat>,
    via: Map<u32, Edge>,
    bound: nat,
    v: u32,
    rest0: Seq<Edge>,
) -> (rest: Seq<Edge>)
    requires
        g.wf(),
        symmetric(g),
        g.vertices().contains(root),
        connected_from(g, root),
        prim_forest(g, root, prev, order, via),
        g.vertices().contains(v),
        order[v] == bound + 1,
        spans(g, chosen_upto(g, order, via, g.vertices().len(), bound) + rest0, root),
        forall|j: int| 0 <= j < rest0.len() ==> g.has_edge(#[trigger] rest0[j]),
    ensures
        spans(g, chosen_upto(g, order, via, g.vertices().len(), bound).push(via[v]) + rest, root),
        forall|j: int| 0 <= j < rest.len() ==> g.has_edge(#[trigger] rest[j]),
        path_weight(rest) + via[v].cost() <= path_weight(rest0),
{
    let n = g.vertices().len();
    let chosen = chosen_upto(g, order, via, n, bound);
    let e = via[v];
    lemma_everyone_has_parent(g, root, prev, order, via, v);
    let inside = |x: u32| g.vertices().contains(x) && order[x] <= bound;
    lemma_chosen_members(g, order, via, n, bound);
    assert forall|j: int| 0 <= j < chosen.len() implies inside((#[trigger] chosen[j]).from)
        == inside(chosen[j].to) by {
        let i = choose|i: int|
            0 <= i < n && 1 <= order[g.vertices()[i]] <= bound && chosen[j]
                == via[#[trigger] g.vertices()[i]];
        let w = g.vertices()[i];
        assert(g.vertices().contains(w));
        lemma_everyone_has_parent(g, root, prev, order, via, w);
    }
    lemma_tree_links(g, root, prev, order, via, bound, e.from);
    let to_source = choose|r: Seq<Edge>| is_route(chosen, r, root, e.from);
    lemma_route_backwards(chosen, to_source, root, e.from);
    assert forall|x: u32| g.vertices().contains(x) && #[trigger] inside(x) implies linked(
        chosen,
        e.from,
        x,
    ) by {
        lemma_tree_links(g, root, prev, order, via, bound, x);
        let r = choose|r: Seq<Edge>| is_route(chosen, r, root, x);
        lemma_route_concat(chosen, backwards(to_source), r, e.from, root, x);
    }
    assert forall|d: Edge|
        #[trigger] g.has_edge(d) && inside(d.from) && !inside(d.to) implies e.cost()
        <= d.cost() by {
        lemma_edge_ends(g, d);
    }
    lemma_exchange(g, root, chosen, rest0, e, inside)
}

/// What Prim's rule has chosen within any bound can be completed by edges
/// of the graph to a set that spans the graph and weighs no more than the
/// spanning set `t`.
proof fn lemma_prim_prefix(
    g: Graph,
    root: u32,
    prev: Map<u32, u32>,
    order: Map<u32, nat>,
    via: Map<u32, Edge>,
    t: Seq<Edge>,
    bound: nat,
) -> (rest: Seq<Edge>)
    requires
        g.wf(),
        symmetric(g),
        g.vertices().contains(root),
        connected_from(g, root),
        prim_forest(g, root, prev, order, via),
        spans(g, t, root),
        forall|j: int| 0 <= j < t.len() ==> g.has_edge(#[trigger] t[j]),
    ensures
        spans(g, chosen_upto(g, order, via, g.vertices().len(), bound) + rest, root),
        forall|j: int| 0 <= j < rest.len() ==> g.has_edge(#[trigger] rest[j]),
        path_weight(chosen_upto(g, order, via, g.vertices().len(), bound)) + path_weight(rest)
            <= path_weight(t),
    decreases bound,
{
    let n = g.vertices().len();
    if bound == 0 {
        lemma_chosen_none(g, order, via, n);
        assert(Seq::<Edge>::empty() + t =~= t);
        assert(path_weight(Seq::<Edge>::empty()) == 0);
        t
    } else {
        let before = (bound - 1) as nat;
        let rest0 = lemma_prim_prefix(g, root, prev, order, via, t, before);
        let low = chosen_upto(g, order, via, n, before);
        let high = chosen_upto(g, order, via, n, bound);
        lemma_chosen_grows(g, order, via, n, before);
        if exists|i: int| 0 <= i < n && order[#[trigger] g.vertices()[i]] == bound {
            let i = choose|i: int| 0 <= i < n && order[#[trigger] g.vertices()[i]] == bound;
            let v = g.vertices()[i];
            assert(g.vertices().contains(v));
            let rest = lemma_prim_step(g, root, prev, order, via, before, v, rest0);
            lemma_chosen_members(g, order, via, n, before);
            lemma_chosen_members(g, order, via, n, bound);
            let pushed = low.push(via[v]);
            assert forall|j: int| 0 <= j < pushed.len() implies high.contains(
                #[trigger] pushed[j],
            ) by {
                if j < low.len() {
                    let m = choose|m: int|
                        0 <= m < n && 1 <= order[g.vertices()[m]] <= before && low[j]
                            == via[#[trigger] g.vertices()[m]];
                    assert(high.contains(via[g.vertices()[m]]));
                } else {
                    assert(high.contains(via[g.vertices()[i]]));
                }
            }
            lemma_links_included(pushed, high, rest);
            lemma_spans_widened(g, pushed + rest, high + rest, root);
            rest
        } else {
            assert(high == low);
            rest0
        }
    }
}

/// Prim's algorithm lists nothing for the root and one link at most for
/// every other vertex: no edge leads from the root to itself, and no two
/// edges lead from a vertex to its predecessor.
pub open spec fn lists_one_link_each(g: Graph, root: u32, prev: Map<u32, u32>) -> bool {
    forall|i: int|
        0 <= i < g.vertices().len() ==> (#[trigger] matching(
            g.edges_of(i),
            prev[g.vertices()[i]],
        )).len() <= if g.vertices()[i] == root {
            0nat
        } else {
            1nat
        }
}

/// An edge that leads to `target` matches.
pub proof fn lemma_matching_holds(edges: Seq<Edge>, target: u32, b: int)
    requires
        0 <= b < edges.len(),
        edges[b].to == target,
    ensures
        matching(edges, target).contains(edges[b]),
    decreases edges.len(),
{
    let rest = edges.drop_last();
    let m = matching(edges, target);
    if b == edges.len() - 1 {
        assert(m[m.len() - 1] == edges[b]);
    } else {
        assert(rest[b] == edges[b]);
        lemma_matching_holds(rest, target, b);
        let r = matching(rest, target);
        let j = choose|j: int| 0 <= j < r.len() && r[j] == edges[b];
        assert(m[j] == r[j]);
    }
}

/// The reverse of the edge by which a vertex was reached is stored with the
/// vertex.
proof fn lemma_way_home(
    g: Graph,
    root: u32,
    prev: Map<u32, u32>,
    order: Map<u32, nat>,
    via: Map<u32, Edge>,
    i: int,
) -> (b: int)
    requires
        g.wf(),
        symmetric(g),
        prim_forest(g, root, prev, order, via),
        0 <= i < g.vertices().len(),
        prev[g.vertices()[i]] != g.vertices()[i],
    ensures
        0 <= b < g.edges_of(i).len(),
        g.edges_of(i)[b] == via[g.vertices()[i]].reversed(),
        g.edges_of(i)[b].to == prev[g.vertices()[i]],
{
    let v = g.vertices()[i];
    assert(g.vertices().contains(v));
    let home = via[v].reversed();
    assert(g.has_edge(home)) by {
        reveal(symmetric);
    }
    g.lemma_position_unique(v, i);
    choose|b: int| 0 <= b < g.out(v).len() && g.out(v)[b] == home
}

/// The links that Prim's algorithm lists for the first `k` vertices weigh
/// as much as the edges by which those vertices were reached, where it
/// lists one link at most for each.
proof fn lemma_prim_weight(
    g: Graph,
    root: u32,
    prev: Map<u32, u32>,
    order: Map<u32, nat>,
    via: Map<u32, Edge>,
    k: nat,
)
    requires
        g.wf(),
        symmetric(g),
        lists_one_link_each(g, root, prev),
        g.vertices().contains(root),
        connected_from(g, root),
        prim_forest(g, root, prev, order, via),
        k <= g.vertices().len(),
    ensures
        path_weight(links_upto(g, prev, k)) == path_weight(
            chosen_upto(g, order, via, k, (g.vertices().len() - 1) as nat),
        ),
    decreases k,
{
    if k > 0 {
        lemma_prim_weight(g, root, prev, order, via, (k - 1) as nat);
        let n = g.vertices().len();
        let v = g.vertices()[k - 1];
        let edges = g.edges_of(k - 1);
        let before = links_upto(g, prev, (k - 1) as nat);
        let here = matching(edges, prev[v]);
        assert(g.vertices().contains(v));
        assert(here.len() <= if v == root {
            0nat
        } else {
            1nat
        });
        if v == root {
            assert(here =~= Seq::<Edge>::empty());
            assert(before + here =~= before);
        } else {
            lemma_everyone_has_parent(g, root, prev, order, via, v);
            let b = lemma_way_home(g, root, prev, order, via, k - 1);
            lemma_matching_holds(edges, prev[v], b);
            assert(here =~= seq![edges[b]]) by {
                let j = choose|j: int| 0 <= j < here.len() && here[j] == edges[b];
                assert(j == 0);
            }
            lemma_weight_concat(before, here);
            assert(path_weight(here) == edges[b].cost()) by {
                assert(here.drop_last() =~= Seq::<Edge>::empty());
                assert(path_weight(Seq::<Edge>::empty()) == 0);
            }
            let chosen = chosen_upto(g, order, via, (k - 1) as nat, (n - 1) as nat);
            assert(chosen.push(via[v]).drop_last() =~= chosen);
        }
    }
}

/// The links that Prim's algorithm lists hold every edge that leads from
/// one of the first `k` vertices to its predecessor.
proof fn lemma_links_hold(g: Graph, prev: Map<u32, u32>, k: nat, i: int, b: int)
    requires
        0 <= i < k <= g.vertices().len(),
        0 <= b < g.edges_of(i).len(),
        g.edges_of(i)[b].to == prev[g.vertices()[i]],
    ensures
        links_upto(g, prev, k).contains(g.edges_of(i)[b]),
    decreases k,
{
    let all = links_upto(g, prev, k);
    let before = links_upto(g, prev, (k - 1) as nat);
    let here = matching(g.edges_of(k - 1), prev[g.vertices()[k - 1]]);
    if i == k - 1 {
        lemma_matching_holds(g.edges_of(i), prev[g.vertices()[i]], b);
        let j = choose|j: int| 0 <= j < here.len() && here[j] == g.edges_of(i)[b];
        assert(all[before.len() + j] == here[j]);
    } else {
        lemma_links_hold(g, prev, (k - 1) as nat, i, b);
        let j = choose|j: int| 0 <= j < before.len() && before[j] == g.edges_of(i)[b];
        assert(all[j] == before[j]);
    }
}

/// The links that Prim's algorithm lists link every vertex to the root.
proof fn lemma_prim_links(
    g: Graph,
    root: u32,
    prev: Map<u32, u32>,
    order: Map<u32, nat>,
    via: Map<u32, Edge>,
    v: u32,
)
    requires
        g.wf(),
        symmetric(g),
        g.vertices().contains(root),
        connected_from(g, root),
        prim_forest(g, root, prev, order, via),
        g.vertices().contains(v),
    ensures
        linked(links_upto(g, prev, g.vertices().len()), root, v),
    decreases order[v],
{
    let p = links_upto(g, prev, g.vertices().len());
    if v == root {
        assert(is_route(p, Seq::<Edge>::empty(), root, v));
    } else {
        lemma_everyone_has_parent(g, root, prev, order, via, v);
        let u = prev[v];
        lemma_prim_links(g, root, prev, order, via, u);
        let head = choose|r: Seq<Edge>| is_route(p, r, root, u);
        let i = g.vertices().index_of(v);
        assert(g.vertices()[i] == v);
        let b = lemma_way_home(g, root, prev, order, via, i);
        lemma_links_hold(g, prev, g.vertices().len(), i, b);
        let j = choose|j: int| 0 <= j < p.len() && p[j] == g.edges_of(i)[b];
        assert(via[v].reversed().reversed() == via[v]);
        assert(p[j].spec_same_ignore_direction(via[v]));
        lemma_route_of_one(p, via[v]);
        lemma_route_concat(p, head, seq![via[v]], root, u, v);
    }
}

/// Prim's tree weighs no more than any set of edges that spans the graph,
/// where the graph is symmetric and connected from the root, and Prim's
/// algorithm lists one link at most for each vertex.
pub proof fn lemma_prim_is_lightest(
    g: Graph,
    root: u32,
    prev: Map<u32, u32>,
    order: Map<u32, nat>,
    via: Map<u32, Edge>,
    t: Seq<Edge>,
)
    requires
        g.wf(),
        symmetric(g),
        g.vertices().contains(root),
        connected_from(g, root),
        prim_forest(g, root, prev, order, via),
        lists_one_link_each(g, root, prev),
        spans(g, t, root),
        forall|j: int| 0 <= j < t.len() ==> g.has_edge(#[trigger] t[j]),
    ensures
        path_weight(links_upto(g, prev, g.vertices().len())) <= path_weight(t),
{
    let n = g.vertices().len();
    assert(n >= 1) by {
        let i = g.vertices().index_of(root);
    }
    let rest = lemma_prim_prefix(g, root, prev, order, via, t, (n - 1) as nat);
    lemma_prim_weight(g, root, prev, order, via, n);
}

/// Kruskal's forest joins the ends of every edge of the graph.
pub proof fn lemma_kruskal_joins(g: Graph, d: Edge)
    requires
        g.wf(),
        g.has_edge(d),
    ensures
        joined(greedy_forest(spec_edges_sorted_asc(g)), d.from, d.to),
{
    let c = spec_edges_sorted_asc(g);
    lemma_edge_is_candidate(g, d);
    lemma_greedy_forest(c);
    let m = choose|m: int| 0 <= m < c.len() && (#[trigger] c[m]).spec_same_ignore_direction(d);
    if c[m] != d {
        lemma_joined_symmetric(greedy_forest(c), c[m].from, c[m].to);
    }
}

/// Kruskal's forest joins the ends of every path through the graph.
proof fn lemma_kruskal_joins_path(g: Graph, p: Seq<Edge>, s: u32, t: u32)
    requires
        g.wf(),
        is_path(g, p, s, t),
    ensures
        joined(greedy_forest(spec_edges_sorted_asc(g)), s, t),
    decreases p.len(),
{
    let k = greedy_forest(spec_edges_sorted_asc(g));
    if p.len() == 0 {
        lemma_joined_reflexive(k, s);
    } else {
        lemma_path_prefix(g, p, s, t);
        lemma_kruskal_joins_path(g, p.drop_last(), s, p.last().from);
        lemma_kruskal_joins(g, p.last());
        lemma_joined_transitive(k, s, p.last().from, t);
    }
}

/// On a graph that is connected from `root`, symmetric and without edges of
/// weight zero, Kruskal's forest and Prim's tree weigh the same, where
/// Prim's algorithm lists one link at most for each vertex.
pub proof fn lemma_kruskal_and_prim_weigh_the_same(
    g: Graph,
    root: u32,
    kruskal: Seq<Edge>,
    prim: Seq<Edge>,
)
    requires
        g.wf(),
        symmetric(g),
        positively_weighted(g),
        g.vertices().contains(root),
        connected_from(g, root),
        kruskal == greedy_forest(spec_edges_sorted_asc(g)),
        exists|prev: Map<u32, u32>, order: Map<u32, nat>, via: Map<u32, Edge>|
            prim_forest(g, root, prev, order, via) && lists_one_link_each(g, root, prev) && prim
                == links_upto(g, prev, g.vertices().len()),
    ensures
        path_weight(kruskal) == path_weight(prim),
{
    let (prev, order, via) = choose|prev: Map<u32, u32>, order: Map<u32, nat>, via: Map<u32, Edge>|
        prim_forest(g, root, prev, order, via) && lists_one_link_each(g, root, prev) && prim
            == links_upto(g, prev, g.vertices().len());
    let n = g.vertices().len();
    assert(spans(g, prim, root)) by {
        reveal(spans);
        assert forall|v: u32| g.vertices().contains(v) implies linked(prim, root, v) by {
            lemma_prim_links(g, root, prev, order, via, v);
        }
    }
    lemma_links_are_edges(g, prev, n);
    lemma_kruskal_is_lightest(g, root, prim);
    assert(spans(g, kruskal, root)) by {
        reveal(spans);
        assert forall|v: u32| g.vertices().contains(v) implies linked(kruskal, root, v) by {
            let p = choose|p: Seq<Edge>| is_path(g, p, root, v);
            lemma_kruskal_joins_path(g, p, root, v);
            lemma_joined_is_linked(kruskal, root, v);
        }
    }
    assert forall|j: int| 0 <= j < kruskal.len() implies g.has_edge(#[trigger] kruskal[j]) by {
        lemma_greedy_forest(spec_edges_sorted_asc(g));
        lemma_candidates_are_edges(g);
        let c = spec_edges_sorted_asc(g);
        assert(c.contains(kruskal[j]));
        let m = choose|m: int| 0 <= m < c.len() && c[m] == kruskal[j];
    }
    lemma_prim_is_lightest(g, root, prev, order, via, kruskal);
}

} // verus!
