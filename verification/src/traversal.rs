//! Breadth-first and depth-first traversal.

use crate::edge::Edge;
use crate::graph::{Graph, Vertices};
use crate::paths::{
    avoids, hop_distance, is_path, lemma_avoiding_through_edge, lemma_distinct_vertices_bounded,
    lemma_edge_at, lemma_nothing_blocked, lemma_path_extend, lemma_path_prefix,
    lemma_path_stays_in_graph, reachable, reachable_avoiding,
};
use vstd::prelude::*;

verus! {

/// A table with one flag per vertex of the graph, none of them set.
pub fn visited_map(graph: &Graph) -> (visited: Vec<bool>)
    ensures
        visited@.len() == graph.vertices().len(),
        forall|i: int| 0 <= i < visited@.len() ==> !visited@[i],
{
    let n = graph.vertex_count();
    let mut visited: Vec<bool> = Vec::new();
    let mut i: usize = 0;
    while i < n
        invariant
            i <= n,
            visited@.len() == i,
            forall|k: int| 0 <= k < i ==> !visited@[k],
        decreases n - i,
    {
        visited.push(false);
        i += 1;
    }
    visited
}

/// `v` stands in `order` at a place whose level is at most `bound`.
pub open spec fn found_within(order: Seq<u32>, level: Seq<nat>, v: u32, bound: nat) -> bool {
    exists|j: int| 0 <= j < order.len() && #[trigger] order[j] == v && level[j] <= bound
}

/// Every vertex that a walk from `order[0]` reaches stands in `order`, at a
/// level no greater than the length of the walk, provided that `order` holds
/// the targets of all edges that leave its members, one level further at most.
proof fn lemma_closed_order_is_complete(
    g: Graph,
    order: Seq<u32>,
    level: Seq<nat>,
    p: Seq<Edge>,
    v: u32,
)
    requires
        g.wf(),
        order.len() > 0,
        order.len() == level.len(),
        level[0] == 0,
        forall|i: int, k: int|
            0 <= i < order.len() && 0 <= k < g.out(order[i]).len() ==> found_within(
                order,
                level,
                (#[trigger] g.out(order[i])[k]).to,
                level[i] + 1,
            ),
        is_path(g, p, order[0], v),
    ensures
        found_within(order, level, v, p.len()),
    decreases p.len(),
{
    if p.len() == 0 {
        assert(order[0] == v);
    } else {
        let e = p.last();
        lemma_path_prefix(g, p, order[0], v);
        lemma_closed_order_is_complete(g, order, level, p.drop_last(), e.from);
        let i = choose|i: int|
            0 <= i < order.len() && #[trigger] order[i] == e.from && level[i] <= p.len() - 1;
        let k = choose|k: int| 0 <= k < g.out(e.from).len() && g.out(e.from)[k] == e;
        assert(found_within(order, level, g.out(order[i])[k].to, level[i] + 1));
        let j = choose|j: int|
            0 <= j < order.len() && #[trigger] order[j] == e.to && level[j] <= level[i] + 1;
        assert(order[j] == v && level[j] <= p.len());
    }
}

/// `order` once the targets of the edges from place `k` on have been
/// noticed: each target that `order` does not hold yet is appended.
pub open spec fn noticed(order: Seq<u32>, edges: Seq<Edge>, k: nat) -> Seq<u32>
    decreases edges.len() - k,
{
    if k >= edges.len() {
        order
    } else {
        let t = edges[k as int].to;
        noticed(
            if order.contains(t) {
                order
            } else {
                order.push(t)
            },
            edges,
            k + 1,
        )
    }
}

/// The order in which the search finds the vertices, given that `order` is
/// what it has found and the vertices before place `head` are dealt with:
/// the vertex at `head` is dealt with next, by noticing the targets of its
/// edges. At most `fuel` vertices are dealt with.
pub open spec fn bfs_rounds(g: Graph, order: Seq<u32>, head: nat, fuel: nat) -> Seq<u32>
    decreases fuel,
{
    if fuel == 0 || head >= order.len() {
        order
    } else {
        bfs_rounds(g, noticed(order, g.out(order[head as int]), 0), head + 1, (fuel - 1) as nat)
    }
}

/// The order in which a breadth-first search from `first` finds the
/// vertices: the targets of a vertex's edges are noticed in the order of the
/// edges, and the vertices are dealt with in the order in which they were
/// noticed.
pub open spec fn bfs_order(g: Graph, first: u32) -> Seq<u32> {
    if g.vertices().contains(first) {
        bfs_rounds(g, seq![first], 0, g.vertices().len())
    } else {
        seq![first]
    }
}

/// Visits the vertices that can be reached from `first`, nearest first.
///
/// The result starts with `first` and lists every vertex reachable from it
/// exactly once; a vertex never comes before one that is fewer edges away
/// from `first`.
pub fn breadth_first_search(graph: &Graph, first: u32) -> (r: Vertices)
    requires
        graph.wf(),
    ensures
        r@ == bfs_order(*graph, first),
        r@.len() > 0,
        r@[0] == first,
        r@.no_duplicates(),
        forall|v: u32| r@.contains(v) <==> reachable(*graph, first, v),
        forall|i: int, j: int, a: nat, b: nat|
            0 <= i <= j < r@.len() && #[trigger] hop_distance(*graph, first, r@[i], a)
                && #[trigger] hop_distance(*graph, first, r@[j], b) ==> a <= b,
{
    let n = graph.vertex_count();
    let mut visited = visited_map(graph);
    let mut result: Vertices = Vertices::new();
    result.push(first);
    let ghost mut level: Seq<nat> = seq![0nat];
    let ghost mut paths: Seq<Seq<Edge>> = seq![Seq::<Edge>::empty()];
    match graph.position(first) {
        None => {
            proof {
                assert forall|v: u32| result@.contains(v) <==> reachable(*graph, first, v) by {
                    if reachable(*graph, first, v) {
                        let p = choose|p: Seq<Edge>| is_path(*graph, p, first, v);
                        lemma_path_stays_in_graph(*graph, p, first, v);
                        assert(result@[0] == v);
                    }
                    if result@.contains(v) {
                        assert(is_path(*graph, Seq::<Edge>::empty(), first, v));
                    }
                }
                assert(result@ =~= seq![first]);
            }
            return result;
        },
        Some(fi) => {
            visited[fi] = true;
        },
    }
    proof {
        assert forall|i: int| 0 <= i < n implies (visited@[i] <==> result@.contains(
            #[trigger] graph.vertices()[i],
        )) by {
            if result@.contains(graph.vertices()[i]) {
                assert(result@[0] == first);
            }
            if visited@[i] {
                assert(result@[0] == graph.vertices()[i]);
            }
        }
    }
    proof {
        assert(result@ =~= seq![first]);
    }
    let mut head: usize = 0;
    while head < result.0.len()
        invariant
            graph.wf(),
            n == graph.vertices().len(),
            visited@.len() == n,
            bfs_rounds(*graph, result@, head as nat, (n - head) as nat) == bfs_order(
                *graph,
                first,
            ),
            head <= n,
            result@.len() == level.len(),
            result@.len() == paths.len(),
            head <= result@.len(),
            result@.len() >= 1,
            result@[0] == first,
            level[0] == 0,
            forall|i: int| 0 <= i < result@.len() ==> graph.vertices().contains(#[trigger] result@[i]),
            forall|i: int|
                0 <= i < n ==> (visited@[i] <==> result@.contains(#[trigger] graph.vertices()[i])),
            result@.no_duplicates(),
            forall|j: int|
                0 <= j < result@.len() ==> is_path(*graph, #[trigger] paths[j], first, result@[j])
                    && paths[j].len() == level[j],
            forall|i: int, j: int| 0 <= i <= j < result@.len() ==> level[i] <= level[j],
            head < result@.len() ==> forall|j: int|
                0 <= j < result@.len() ==> #[trigger] level[j] <= level[head as int] + 1,
            forall|i: int, k: int|
                0 <= i < head && 0 <= k < graph.out(result@[i]).len() ==> found_within(
                    result@,
                    level,
                    (#[trigger] graph.out(result@[i])[k]).to,
                    level[i] + 1,
                ),
        decreases n - head,
    {
        proof {
            lemma_distinct_vertices_bounded(*graph, result@);
        }
        let v = result.0[head];
        proof {
            assert(graph.vertices().contains(result@[head as int]));
        }
        let vi = graph.position_of(v);
        let edges = graph.edges_at(vi);
        proof {
            graph.lemma_position_unique(v, vi as int);
        }
        let m = edges.len();
        let mut k: usize = 0;
        let ghost at_head = result@;
        while k < m
            invariant
                graph.wf(),
                n == graph.vertices().len(),
                visited@.len() == n,
                noticed(result@, graph.out(v), k as nat) == noticed(at_head, graph.out(v), 0),
                result@.len() == level.len(),
                result@.len() == paths.len(),
                head < result@.len(),
                result@[0] == first,
                level[0] == 0,
                v == result@[head as int],
                vi < n,
                graph.vertices()[vi as int] == v,
                edges@ == graph.edges_of(vi as int),
                graph.out(v) == graph.edges_of(vi as int),
                m == edges@.len(),
                k <= m,
                forall|i: int|
                    0 <= i < result@.len() ==> graph.vertices().contains(#[trigger] result@[i]),
                forall|i: int|
                    0 <= i < n ==> (visited@[i] <==> result@.contains(
                        #[trigger] graph.vertices()[i],
                    )),
                result@.no_duplicates(),
                forall|j: int|
                    0 <= j < result@.len() ==> is_path(
                        *graph,
                        #[trigger] paths[j],
                        first,
                        result@[j],
                    ) && paths[j].len() == level[j],
                forall|i: int, j: int| 0 <= i <= j < result@.len() ==> level[i] <= level[j],
                forall|j: int|
                    0 <= j < result@.len() ==> #[trigger] level[j] <= level[head as int] + 1,
                forall|i: int, k: int|
                    0 <= i < head && 0 <= k < graph.out(result@[i]).len() ==> found_within(
                        result@,
                        level,
                        (#[trigger] graph.out(result@[i])[k]).to,
                        level[i] + 1,
                    ),
                forall|kk: int|
                    0 <= kk < k ==> found_within(
                        result@,
                        level,
                        (#[trigger] graph.out(v)[kk]).to,
                        level[head as int] + 1,
                    ),
            decreases m - k,
        {
            let e = edges.get(k);
            proof {
                lemma_edge_at(*graph, vi as int, k as int);
            }
            let ti = graph.position_of(e.to);
            let ghost before = result@;
            let ghost level_before = level;
            proof {
                assert(visited@[ti as int] <==> before.contains(graph.vertices()[ti as int]));
            }
            if !visited[ti] {
                visited[ti] = true;
                result.push(e.to);
                proof {
                    lemma_path_extend(*graph, paths[head as int], first, e);
                    level = level.push(level[head as int] + 1);
                    paths = paths.push(paths[head as int].push(e));
                    assert forall|i: int| 0 <= i < n implies (visited@[i] <==> result@.contains(
                        #[trigger] graph.vertices()[i],
                    )) by {
                        let x = graph.vertices()[i];
                        if result@.contains(x) {
                            let j = choose|j: int| 0 <= j < result@.len() && result@[j] == x;
                            if j < before.len() {
                                assert(before[j] == x);
                                assert(before.contains(x));
                            }
                        }
                        if before.contains(x) {
                            let j = choose|j: int| 0 <= j < before.len() && before[j] == x;
                            assert(result@[j] == x);
                        }
                        if i == ti {
                            assert(result@[before.len() as int] == x);
                        }
                    }
                    assert(result@.no_duplicates()) by {
                        assert forall|a: int, b: int|
                            0 <= a < result@.len() && 0 <= b < result@.len() && a
                                != b implies result@[a] != result@[b] by {
                            if a < before.len() && b < before.len() {
                                assert(before[a] != before[b]);
                            } else if a < before.len() {
                                assert(before.contains(before[a]));
                            } else if b < before.len() {
                                assert(before.contains(before[b]));
                            }
                        }
                    }
                    assert(found_within(result@, level, e.to, level[head as int] + 1)) by {
                        assert(result@[before.len() as int] == e.to);
                    }
                }
            } else {
                proof {
                    assert(before.contains(graph.vertices()[ti as int]));
                    let j = choose|j: int| 0 <= j < before.len() && before[j] == e.to;
                    assert(result@[j] == e.to && level[j] <= level[head as int] + 1);
                }
            }
            proof {
                assert forall|i: int, k: int|
                    0 <= i < head && 0 <= k < graph.out(result@[i]).len() implies found_within(
                    result@,
                    level,
                    (#[trigger] graph.out(result@[i])[k]).to,
                    level[i] + 1,
                ) by {
                    assert(result@[i] == before[i]);
                    let t = graph.out(before[i])[k].to;
                    assert(found_within(before, level_before, t, level_before[i] + 1));
                    let j = choose|j: int|
                        0 <= j < before.len() && #[trigger] before[j] == t && level_before[j]
                            <= level_before[i] + 1;
                    assert(result@[j] == t && level[j] <= level[i] + 1);
                }
                assert forall|kk: int| 0 <= kk < k + 1 implies found_within(
                    result@,
                    level,
                    (#[trigger] graph.out(v)[kk]).to,
                    level[head as int] + 1,
                ) by {
                    if kk < k {
                        let t = graph.out(v)[kk].to;
                        assert(found_within(before, level_before, t, level_before[head as int] + 1));
                        let j = choose|j: int|
                            0 <= j < before.len() && #[trigger] before[j] == t && level_before[j]
                                <= level_before[head as int] + 1;
                        assert(result@[j] == t && level[j] <= level[head as int] + 1);
                    }
                }
            }
            k += 1;
        }
        proof {
            assert(at_head[head as int] == v);
        }
        head += 1;
    }
    proof {
        assert forall|v: u32| result@.contains(v) <==> reachable(*graph, first, v) by {
            if result@.contains(v) {
                let j = choose|j: int| 0 <= j < result@.len() && result@[j] == v;
                assert(is_path(*graph, paths[j], first, v));
            }
            if reachable(*graph, first, v) {
                let p = choose|p: Seq<Edge>| is_path(*graph, p, first, v);
                lemma_closed_order_is_complete(*graph, result@, level, p, v);
            }
        }
        assert forall|i: int, j: int, a: nat, b: nat|
            0 <= i <= j < result@.len() && #[trigger] hop_distance(*graph, first, result@[i], a)
                && #[trigger] hop_distance(*graph, first, result@[j], b) implies a <= b by {
            lemma_level_is_hop_distance(*graph, result@, level, paths, i, a);
            lemma_level_is_hop_distance(*graph, result@, level, paths, j, b);
        }
    }
    result
}

/// In a closed breadth-first order with witnessed levels, the level of a
/// vertex is its hop distance from the start.
proof fn lemma_level_is_hop_distance(
    g: Graph,
    order: Seq<u32>,
    level: Seq<nat>,
    paths: Seq<Seq<Edge>>,
    i: int,
    a: nat,
)
    requires
        g.wf(),
        order.len() > 0,
        order.len() == level.len(),
        order.len() == paths.len(),
        order.no_duplicates(),
        level[0] == 0,
        forall|i: int, k: int|
            0 <= i < order.len() && 0 <= k < g.out(order[i]).len() ==> found_within(
                order,
                level,
                (#[trigger] g.out(order[i])[k]).to,
                level[i] + 1,
            ),
        forall|j: int|
            0 <= j < order.len() ==> is_path(g, #[trigger] paths[j], order[0], order[j])
                && paths[j].len() == level[j],
        0 <= i < order.len(),
        hop_distance(g, order[0], order[i], a),
    ensures
        a == level[i],
{
    let p = choose|p: Seq<Edge>| is_path(g, p, order[0], order[i]) && p.len() == a;
    lemma_closed_order_is_complete(g, order, level, p, order[i]);
    let j = choose|j: int| 0 <= j < order.len() && #[trigger] order[j] == order[i] && level[j] <= a;
    assert(j == i);
    assert(is_path(g, paths[i], order[0], order[i]));
}

/// How many flags of the table are not set.
pub open spec fn unvisited(visited: Seq<bool>) -> nat
    decreases visited.len(),
{
    if visited.len() == 0 {
        0
    } else {
        unvisited(visited.drop_last()) + if visited.last() {
            0nat
        } else {
            1nat
        }
    }
}

/// Setting a flag that was not set leaves one unset flag fewer.
pub proof fn lemma_unvisited_mark(visited: Seq<bool>, i: int)
    requires
        0 <= i < visited.len(),
        !visited[i],
    ensures
        unvisited(visited.update(i, true)) + 1 == unvisited(visited),
    decreases visited.len(),
{
    let after = visited.update(i, true);
    if i == visited.len() - 1 {
        assert(after.drop_last() =~= visited.drop_last());
    } else {
        lemma_unvisited_mark(visited.drop_last(), i);
        assert(after.drop_last() =~= visited.drop_last().update(i, true));
    }
}

/// The list after a depth-first search from `v`, begun with the list
/// `order`: `v` is appended, and then the search goes on, in the order of the
/// edges that leave `v`, from each target that the list does not hold by
/// then. The search goes at most `fuel` vertices deep.
#[verifier::opaque]
pub open spec fn dfs_from(g: Graph, v: u32, order: Seq<u32>, fuel: nat) -> Seq<u32>
    decreases fuel, 0nat, 0nat,
{
    if fuel == 0 {
        order
    } else {
        dfs_along(g, g.out(v), 0, order.push(v), (fuel - 1) as nat)
    }
}

/// The list after the search has gone on from the targets of the edges from
/// place `k` on.
#[verifier::opaque]
pub open spec fn dfs_along(g: Graph, edges: Seq<Edge>, k: nat, order: Seq<u32>, fuel: nat) -> Seq<
    u32,
>
    decreases fuel, 1nat, edges.len() - k,
{
    if k >= edges.len() {
        order
    } else {
        let t = edges[k as int].to;
        let next = if order.contains(t) {
            order
        } else {
            dfs_from(g, t, order, fuel)
        };
        dfs_along(g, edges, k + 1, next, fuel)
    }
}

/// A search with fuel left appends its start and goes on along the start's
/// edges.
pub proof fn lemma_dfs_from_begins(g: Graph, v: u32, order: Seq<u32>, fuel: nat)
    requires
        fuel > 0,
    ensures
        dfs_from(g, v, order, fuel) == dfs_along(g, g.out(v), 0, order.push(v), (fuel - 1) as nat),
{
    reveal(dfs_from);
    reveal(dfs_along);
}

/// Going on along the edges from place `k` is dealing with the edge at `k`
/// and going on from place `k + 1`.
pub proof fn lemma_dfs_along_steps(g: Graph, edges: Seq<Edge>, k: nat, order: Seq<u32>, fuel: nat)
    requires
        k < edges.len(),
    ensures
        dfs_along(g, edges, k, order, fuel) == dfs_along(
            g,
            edges,
            k + 1,
            if order.contains(edges[k as int].to) {
                order
            } else {
                dfs_from(g, edges[k as int].to, order, fuel)
            },
            fuel,
        ),
{
    reveal(dfs_from);
    reveal(dfs_along);
}

/// Behind the last edge nothing is left to do.
pub proof fn lemma_dfs_along_ends(g: Graph, edges: Seq<Edge>, k: nat, order: Seq<u32>, fuel: nat)
    requires
        k >= edges.len(),
    ensures
        dfs_along(g, edges, k, order, fuel) == order,
{
    reveal(dfs_from);
    reveal(dfs_along);
}

/// The list after depth-first searches from the first `i` vertices of the
/// graph, each begun where the searches before it have not come.
pub open spec fn dfs_forest(g: Graph, i: nat) -> Seq<u32>
    decreases i,
{
    if i == 0 {
        Seq::empty()
    } else {
        let before = dfs_forest(g, (i - 1) as nat);
        let v = g.vertices()[i - 1];
        if before.contains(v) {
            before
        } else {
            dfs_from(g, v, before, g.vertices().len())
        }
    }
}

/// No more flags are unset than the table has.
pub proof fn lemma_unvisited_bound(visited: Seq<bool>)
    ensures
        unvisited(visited) <= visited.len(),
    decreases visited.len(),
{
    if visited.len() > 0 {
        lemma_unvisited_bound(visited.drop_last());
    }
}

/// The table `visited` flags exactly the vertices listed in `order`, which
/// lists vertices of the graph only and none of them twice.
pub open spec fn marks(g: Graph, visited: Seq<bool>, order: Seq<u32>) -> bool {
    &&& visited.len() == g.vertices().len()
    &&& forall|i: int|
        0 <= i < visited.len() ==> (visited[i] <==> order.contains(#[trigger] g.vertices()[i]))
    &&& forall|j: int| 0 <= j < order.len() ==> g.vertices().contains(#[trigger] order[j])
    &&& order.no_duplicates()
}

/// `order` holds the target of every edge that leaves one of its members from
/// place `from` on.
pub open spec fn closed_from(g: Graph, order: Seq<u32>, from: int) -> bool {
    forall|j: int, k: int|
        from <= j < order.len() && 0 <= k < g.out(order[j]).len() ==> order.contains(
            (#[trigger] g.out(order[j])[k]).to,
        )
}

/// Marking one more vertex and listing it keeps table and list in step.
proof fn lemma_marks_push(g: Graph, visited: Seq<bool>, order: Seq<u32>, i: int)
    requires
        g.wf(),
        marks(g, visited, order),
        0 <= i < visited.len(),
        !visited[i],
    ensures
        marks(g, visited.update(i, true), order.push(g.vertices()[i])),
        !order.contains(g.vertices()[i]),
{
    let v = g.vertices()[i];
    let after = order.push(v);
    let flags = visited.update(i, true);
    assert forall|a: int| 0 <= a < flags.len() implies (flags[a] <==> after.contains(
        #[trigger] g.vertices()[a],
    )) by {
        let x = g.vertices()[a];
        if after.contains(x) {
            let j = choose|j: int| 0 <= j < after.len() && after[j] == x;
            if j < order.len() {
                assert(order[j] == x);
            }
        }
        if order.contains(x) {
            let j = choose|j: int| 0 <= j < order.len() && order[j] == x;
            assert(after[j] == x);
        }
        if a == i {
            assert(after[order.len() as int] == x);
        }
    }
    assert forall|j: int| 0 <= j < after.len() implies g.vertices().contains(
        #[trigger] after[j],
    ) by {
        if j < order.len() {
            assert(after[j] == order[j]);
        }
    }
    assert forall|a: int, b: int| 0 <= a < after.len() && 0 <= b < after.len() && a
        != b implies after[a] != after[b] by {
        if a < order.len() && b < order.len() {
        } else if a < order.len() {
            assert(order.contains(order[a]));
        } else if b < order.len() {
            assert(order.contains(order[b]));
        }
    }
}

/// A list that extends another holds whatever the shorter one holds.
proof fn lemma_extension_contains(short: Seq<u32>, long: Seq<u32>, v: u32)
    requires
        short.len() <= long.len(),
        long.subrange(0, short.len() as int) == short,
        short.contains(v),
    ensures
        long.contains(v),
{
    let j = choose|j: int| 0 <= j < short.len() && short[j] == v;
    assert(long.subrange(0, short.len() as int)[j] == long[j]);
}

/// Where `order` from place `from` on is closed under the graph's edges and
/// `order[from]` is `s`, every vertex that a walk from `s` reaches without
/// touching the members before `from` is a member of `order`.
proof fn lemma_closed_reaches(g: Graph, order: Seq<u32>, from: int, p: Seq<Edge>, v: u32)
    requires
        g.wf(),
        0 <= from < order.len(),
        closed_from(g, order, from),
        is_path(g, p, order[from], v),
        avoids(p, order[from], order.subrange(0, from)),
    ensures
        order.contains(v),
        !order.subrange(0, from).contains(v),
    decreases p.len(),
{
    let blocked = order.subrange(0, from);
    if p.len() == 0 {
    } else {
        let e = p.last();
        lemma_path_prefix(g, p, order[from], v);
        let q = p.drop_last();
        assert forall|i: int| 0 <= i < q.len() implies !blocked.contains((#[trigger] q[i]).to) by {
            assert(q[i] == p[i]);
        }
        lemma_closed_reaches(g, order, from, q, e.from);
        let j = choose|j: int| 0 <= j < order.len() && order[j] == e.from;
        if j < from {
            assert(blocked[j] == e.from);
        }
        let k = choose|k: int| 0 <= k < g.out(e.from).len() && g.out(e.from)[k] == e;
        assert(order.contains(g.out(order[j])[k].to));
    }
}

/// Visits `vert` and then, depth first, every vertex that can be reached from
/// it through vertices not visited before.
///
/// The vertices visited are appended to `result`, `vert` first and each once:
/// they are exactly those that some walk from `vert` reaches without touching
/// a vertex that `result` held before the call.
pub fn dfs_visit(vert: &u32, graph: &Graph, visited: &mut Vec<bool>, result: &mut Vertices)
    requires
        graph.wf(),
        graph.contains_vertex(*vert),
        marks(*graph, old(visited)@, old(result)@),
        !old(result)@.contains(*vert),
    ensures
        marks(*graph, final(visited)@, final(result)@),
        final(result)@.len() > old(result)@.len(),
        final(result)@.subrange(0, old(result)@.len() as int) == old(result)@,
        final(result)@[old(result)@.len() as int] == *vert,
        closed_from(*graph, final(result)@, old(result)@.len() as int),
        unvisited(final(visited)@) < unvisited(old(visited)@),
        forall|v: u32|
            (final(result)@.contains(v) && !old(result)@.contains(v)) <==> reachable_avoiding(
                *graph,
                old(result)@,
                *vert,
                v,
            ),
        forall|fuel: nat|
            fuel >= unvisited(old(visited)@) ==> final(result)@ == #[trigger] dfs_from(
                *graph,
                *vert,
                old(result)@,
                fuel,
            ),
    decreases unvisited(old(visited)@),
{
    let ghost start = old(result)@.len() as int;
    let vi = graph.position_of(*vert);
    proof {
        graph.lemma_position_unique(*vert, vi as int);
        lemma_marks_push(*graph, visited@, result@, vi as int);
        lemma_unvisited_mark(visited@, vi as int);
    }
    visited[vi] = true;
    result.push(*vert);
    let edges = graph.edges_at(vi);
    let m = edges.len();
    let mut k: usize = 0;
    proof {
        assert(result@.subrange(0, start) =~= old(result)@);
        assert(is_path(*graph, Seq::<Edge>::empty(), *vert, *vert));
        assert(avoids(Seq::<Edge>::empty(), *vert, old(result)@));
    }
    while k < m
        invariant
            graph.wf(),
            marks(*graph, visited@, result@),
            start == old(result)@.len(),
            result@.len() > start,
            result@.subrange(0, start) == old(result)@,
            result@[start] == *vert,
            !old(result)@.contains(*vert),
            vi < graph.vertices().len(),
            graph.vertices()[vi as int] == *vert,
            edges@ == graph.edges_of(vi as int),
            graph.out(*vert) == graph.edges_of(vi as int),
            m == edges@.len(),
            k <= m,
            unvisited(visited@) < unvisited(old(visited)@),
            closed_from(*graph, result@, start + 1),
            forall|fuel: nat|
                fuel + 1 >= unvisited(old(visited)@) ==> #[trigger] dfs_along(
                    *graph,
                    graph.out(*vert),
                    k as nat,
                    result@,
                    fuel,
                ) == dfs_along(*graph, graph.out(*vert), 0, old(result)@.push(*vert), fuel),
            forall|kk: int| 0 <= kk < k ==> result@.contains((#[trigger] graph.out(*vert)[kk]).to),
            forall|j: int|
                start <= j < result@.len() ==> reachable_avoiding(
                    *graph,
                    old(result)@,
                    *vert,
                    #[trigger] result@[j],
                ),
        decreases m - k,
    {
        let e = edges.get(k);
        proof {
            lemma_edge_at(*graph, vi as int, k as int);
        }
        let ti = graph.position_of(e.to);
        let ghost before = result@;
        let ghost flags = visited@;
        let seen = visited[ti];
        proof {
            assert(seen <==> before.contains(e.to));
            assert(graph.out(*vert)[k as int] == e);
            assert(unvisited(flags) < unvisited(old(visited)@));
        }
        if !seen {
            dfs_visit(&e.to, graph, visited, result);
            proof {
                assert(result@.subrange(0, start) =~= before.subrange(0, start));
                assert(result@[start] == result@.subrange(0, before.len() as int)[start]);
                assert forall|j: int, kk: int|
                    start + 1 <= j < result@.len() && 0 <= kk < graph.out(
                        result@[j],
                    ).len() implies result@.contains(
                    (#[trigger] graph.out(result@[j])[kk]).to,
                ) by {
                    if j < before.len() {
                        assert(result@[j] == result@.subrange(0, before.len() as int)[j]);
                        lemma_extension_contains(before, result@, graph.out(before[j])[kk].to);
                    }
                }
                assert forall|kk: int| 0 <= kk < k + 1 implies result@.contains(
                    (#[trigger] graph.out(*vert)[kk]).to,
                ) by {
                    if kk < k {
                        lemma_extension_contains(before, result@, graph.out(*vert)[kk].to);
                    } else {
                        assert(result@[before.len() as int] == e.to);
                    }
                }
                assert forall|j: int| start <= j < result@.len() implies reachable_avoiding(
                    *graph,
                    old(result)@,
                    *vert,
                    #[trigger] result@[j],
                ) by {
                    if j < before.len() {
                        assert(result@[j] == result@.subrange(0, before.len() as int)[j]);
                    } else {
                        let v = result@[j];
                        assert(result@.contains(v));
                        if before.contains(v) {
                            let a = choose|a: int| 0 <= a < before.len() && before[a] == v;
                            assert(result@.subrange(0, before.len() as int)[a] == result@[a]);
                        }
                        assert forall|x: u32| old(result)@.contains(x) implies before.contains(
                            x,
                        ) by {
                            lemma_extension_contains(old(result)@, before, x);
                        }
                        lemma_avoiding_through_edge(*graph, old(result)@, before, e, v);
                    }
                }
            }
        } else {
            proof {
                assert(result@.contains(graph.vertices()[ti as int]));
            }
        }
        let ghost at = k as nat;
        proof {
            assert forall|fuel: nat| fuel + 1 >= unvisited(old(visited)@) implies dfs_along(
                *graph,
                graph.out(*vert),
                at,
                before,
                fuel,
            ) == dfs_along(*graph, graph.out(*vert), at + 1, result@, fuel) by {
                lemma_dfs_along_steps(*graph, graph.out(*vert), at, before, fuel);
                if !seen {
                    assert(fuel >= unvisited(flags));
                    assert(result@ == dfs_from(*graph, e.to, before, fuel));
                }
            }
        }
        k += 1;
        proof {
            assert(k as nat == at + 1);
            assert forall|fuel: nat| fuel + 1 >= unvisited(old(visited)@) implies #[trigger] dfs_along(
                *graph,
                graph.out(*vert),
                k as nat,
                result@,
                fuel,
            ) == dfs_along(*graph, graph.out(*vert), 0, old(result)@.push(*vert), fuel) by {
                assert(dfs_along(*graph, graph.out(*vert), at, before, fuel) == dfs_along(
                    *graph,
                    graph.out(*vert),
                    at + 1,
                    result@,
                    fuel,
                ));
                assert(dfs_along(*graph, graph.out(*vert), at, before, fuel) == dfs_along(
                    *graph,
                    graph.out(*vert),
                    0,
                    old(result)@.push(*vert),
                    fuel,
                ));
            }
        }
    }
    proof {
        assert forall|fuel: nat| fuel >= unvisited(old(visited)@) implies result@ == #[trigger] dfs_from(
            *graph,
            *vert,
            old(result)@,
            fuel,
        ) by {
            let f = (fuel - 1) as nat;
            lemma_unvisited_mark(old(visited)@, vi as int);
            lemma_dfs_along_ends(*graph, graph.out(*vert), m as nat, result@, f);
            lemma_dfs_from_begins(*graph, *vert, old(result)@, fuel);
            assert(dfs_along(*graph, graph.out(*vert), m as nat, result@, f) == dfs_along(
                *graph,
                graph.out(*vert),
                0,
                old(result)@.push(*vert),
                f,
            ));
        }
        assert forall|j: int, kk: int|
            start <= j < result@.len() && 0 <= kk < graph.out(result@[j]).len() implies result@.contains(
            (#[trigger] graph.out(result@[j])[kk]).to,
        ) by {}
        assert forall|v: u32|
            (result@.contains(v) && !old(result)@.contains(v)) <==> reachable_avoiding(
                *graph,
                old(result)@,
                *vert,
                v,
            ) by {
            if result@.contains(v) && !old(result)@.contains(v) {
                let j = choose|j: int| 0 <= j < result@.len() && result@[j] == v;
                if j < start {
                    assert(result@.subrange(0, start)[j] == v);
                }
            }
            if reachable_avoiding(*graph, old(result)@, *vert, v) {
                let p = choose|p: Seq<Edge>|
                    is_path(*graph, p, *vert, v) && avoids(p, *vert, old(result)@);
                lemma_closed_reaches(*graph, result@, start, p, v);
            }
        }
    }
}

/// A depth-first search that starts with nothing visited lists exactly the
/// vertices that can be reached from its start, each once.
pub proof fn lemma_dfs_visit_from_scratch(g: Graph, s: u32, visited: Seq<bool>, order: Seq<u32>)
    requires
        marks(g, visited, order),
        forall|v: u32|
            (order.contains(v) && !Seq::<u32>::empty().contains(v)) <==> reachable_avoiding(
                g,
                Seq::<u32>::empty(),
                s,
                v,
            ),
    ensures
        order.no_duplicates(),
        forall|v: u32| order.contains(v) <==> reachable(g, s, v),
{
    assert forall|v: u32| order.contains(v) <==> reachable(g, s, v) by {
        lemma_nothing_blocked(g, s, v);
    }
}

/// Visits every vertex of the graph depth first, one component after the
/// other: the search starts over from each vertex, in the graph's vertex
/// order, that no earlier search has reached.
///
/// The result lists every vertex of the graph exactly once.
pub fn depth_first_search(graph: &Graph) -> (r: Vertices)
    requires
        graph.wf(),
    ensures
        r@ == dfs_forest(*graph, graph.vertices().len()),
        r@.no_duplicates(),
        r@.len() == graph.vertices().len(),
        forall|v: u32| r@.contains(v) <==> graph.contains_vertex(v),
        r@.len() > 0 ==> r@[0] == graph.vertices()[0],
{
    let mut result: Vertices = Vertices::new();
    let mut visited = visited_map(graph);
    let n = graph.vertex_count();
    let mut i: usize = 0;
    while i < n
        invariant
            graph.wf(),
            n == graph.vertices().len(),
            i <= n,
            marks(*graph, visited@, result@),
            result@ == dfs_forest(*graph, i as nat),
            forall|j: int| 0 <= j < i ==> visited@[j],
            i == 0 ==> result@.len() == 0,
            i > 0 ==> result@.len() > 0 && result@[0] == graph.vertices()[0],
        decreases n - i,
    {
        proof {
            if i == 0 && visited@[0] {
                let j = choose|j: int| 0 <= j < result@.len() && result@[j] == graph.vertices()[0];
            }
        }
        proof {
            lemma_unvisited_bound(visited@);
            assert(visited@[i as int] <==> result@.contains(graph.vertices()[i as int]));
        }
        if !visited[i] {
            let key = graph.vertex_at(i);
            let ghost before = result@;
            dfs_visit(&key, graph, &mut visited, &mut result);
            proof {
                assert(result@[0] == if before.len() > 0 {
                    result@.subrange(0, before.len() as int)[0]
                } else {
                    key
                });
                assert forall|j: int| 0 <= j < i + 1 implies visited@[j] by {
                    if j < i {
                        assert(before.contains(graph.vertices()[j]));
                        lemma_extension_contains(before, result@, graph.vertices()[j]);
                    } else {
                        assert(result@[before.len() as int] == graph.vertices()[j]);
                    }
                }
            }
        }
        i += 1;
    }
    proof {
        lemma_all_marked_is_everything(*graph, visited@, result@);
    }
    result
}

/// A list that is in step with a table whose flags are all set lists every
/// vertex of the graph exactly once.
proof fn lemma_all_marked_is_everything(g: Graph, visited: Seq<bool>, order: Seq<u32>)
    requires
        g.wf(),
        marks(g, visited, order),
        forall|j: int| 0 <= j < visited.len() ==> visited[j],
    ensures
        order.len() == g.vertices().len(),
        forall|v: u32| order.contains(v) <==> g.vertices().contains(v),
{
    broadcast use vstd::seq_lib::seq_to_set_is_finite;

    assert forall|v: u32| order.contains(v) <==> g.vertices().contains(v) by {
        if g.vertices().contains(v) {
            let i = g.vertices().index_of(v);
            assert(visited[i]);
        }
    }
    order.unique_seq_to_set();
    g.vertices().unique_seq_to_set();
    assert(order.to_set() =~= g.vertices().to_set());
}

/// The state of a search with an explicit stack: the table flags exactly the
/// vertices that are on the stack or done, no vertex is both, and neither list
/// holds a vertex twice or anything that is no vertex of the graph.
pub open spec fn search_state(g: Graph, visited: Seq<bool>, stack: Seq<u32>, done: Seq<u32>) -> bool {
    &&& visited.len() == g.vertices().len()
    &&& forall|i: int|
        0 <= i < visited.len() ==> (visited[i] <==> (done.contains(#[trigger] g.vertices()[i])
            || stack.contains(g.vertices()[i])))
    &&& forall|j: int| 0 <= j < done.len() ==> g.vertices().contains(#[trigger] done[j])
    &&& forall|j: int|
        0 <= j < stack.len() ==> g.vertices().contains(#[trigger] stack[j]) && !done.contains(
            stack[j],
        )
    &&& done.no_duplicates()
    &&& stack.no_duplicates()
}

/// Pushing a vertex that is not flagged yet, and flagging it, keeps the
/// search state.
proof fn lemma_search_push(g: Graph, visited: Seq<bool>, stack: Seq<u32>, done: Seq<u32>, i: int)
    requires
        g.wf(),
        search_state(g, visited, stack, done),
        0 <= i < visited.len(),
        !visited[i],
    ensures
        search_state(g, visited.update(i, true), stack.push(g.vertices()[i]), done),
{
    let v = g.vertices()[i];
    let after = stack.push(v);
    let flags = visited.update(i, true);
    assert forall|a: int| 0 <= a < flags.len() implies (flags[a] <==> (done.contains(
        #[trigger] g.vertices()[a],
    ) || after.contains(g.vertices()[a]))) by {
        let x = g.vertices()[a];
        if after.contains(x) {
            let j = choose|j: int| 0 <= j < after.len() && after[j] == x;
            if j < stack.len() {
                assert(stack[j] == x);
            }
        }
        if stack.contains(x) {
            let j = choose|j: int| 0 <= j < stack.len() && stack[j] == x;
            assert(after[j] == x);
        }
        if a == i {
            assert(after[stack.len() as int] == x);
        }
    }
    assert forall|j: int| 0 <= j < after.len() implies g.vertices().contains(#[trigger] after[j])
        && !done.contains(after[j]) by {
        if j < stack.len() {
            assert(after[j] == stack[j]);
        }
    }
    assert forall|a: int, b: int| 0 <= a < after.len() && 0 <= b < after.len() && a
        != b implies after[a] != after[b] by {
        if a < stack.len() && b < stack.len() {
        } else if a < stack.len() {
            assert(stack.contains(stack[a]));
        } else if b < stack.len() {
            assert(stack.contains(stack[b]));
        }
    }
}

/// Moving the top of the stack to the end of the done list keeps the search
/// state.
proof fn lemma_search_pop(g: Graph, visited: Seq<bool>, stack: Seq<u32>, done: Seq<u32>)
    requires
        g.wf(),
        search_state(g, visited, stack, done),
        stack.len() > 0,
    ensures
        search_state(g, visited, stack.drop_last(), done.push(stack.last())),
{
    let top = stack.last();
    let rest = stack.drop_last();
    let after = done.push(top);
    assert(after[done.len() as int] == top);
    assert forall|x: u32| after.contains(x) <==> (done.contains(x) || x == top) by {
        if after.contains(x) {
            let j = choose|j: int| 0 <= j < after.len() && after[j] == x;
            if j < done.len() {
                assert(done[j] == x);
            }
        }
        if done.contains(x) {
            let j = choose|j: int| 0 <= j < done.len() && done[j] == x;
            assert(after[j] == x);
        }
    }
    assert forall|x: u32| stack.contains(x) <==> (rest.contains(x) || x == top) by {
        if stack.contains(x) {
            let j = choose|j: int| 0 <= j < stack.len() && stack[j] == x;
            if j < rest.len() {
                assert(rest[j] == x);
            }
        }
        if rest.contains(x) {
            let j = choose|j: int| 0 <= j < rest.len() && rest[j] == x;
            assert(stack[j] == x);
        }
    }
    assert forall|j: int| 0 <= j < after.len() implies g.vertices().contains(
        #[trigger] after[j],
    ) by {
        if j < done.len() {
            assert(after[j] == done[j]);
        }
    }
    assert forall|j: int| 0 <= j < rest.len() implies g.vertices().contains(#[trigger] rest[j])
        && !after.contains(rest[j]) by {
        assert(rest[j] == stack[j]);
    }
    assert forall|a: int, b: int| 0 <= a < after.len() && 0 <= b < after.len() && a
        != b implies after[a] != after[b] by {
        if a < done.len() && b < done.len() {
        } else if a < done.len() {
            assert(done.contains(done[a]));
        } else if b < done.len() {
            assert(done.contains(done[b]));
        }
    }
    assert forall|a: int, b: int| 0 <= a < rest.len() && 0 <= b < rest.len() && a
        != b implies rest[a] != rest[b] by {
        assert(rest[a] == stack[a]);
        assert(rest[b] == stack[b]);
    }
}

/// The first target, among the edges from place `k` on, that is neither on
/// the stack nor done.
pub open spec fn first_new(edges: Seq<Edge>, k: nat, stack: Seq<u32>, done: Seq<u32>) -> Option<
    u32,
>
    decreases edges.len() - k,
{
    if k >= edges.len() {
        None
    } else {
        let t = edges[k as int].to;
        if !stack.contains(t) && !done.contains(t) {
            Some(t)
        } else {
            first_new(edges, k + 1, stack, done)
        }
    }
}

/// The done list when the stack has run empty: in each step the first new
/// target of the vertex on top of the stack is pushed, or, where it has
/// none, the top is popped and appended to the done list. At most `fuel`
/// steps are made.
pub open spec fn stack_run(g: Graph, stack: Seq<u32>, done: Seq<u32>, fuel: nat) -> Seq<u32>
    decreases fuel,
{
    if fuel == 0 || stack.len() == 0 {
        done
    } else {
        let top = stack.last();
        match first_new(g.out(top), 0, stack, done) {
            Some(t) => stack_run(g, stack.push(t), done, (fuel - 1) as nat),
            None => stack_run(g, stack.drop_last(), done.push(top), (fuel - 1) as nat),
        }
    }
}

/// The done list after searches with a stack from the first `i` vertices of
/// the graph, each begun where the searches before it have not come.
pub open spec fn dfs_iter_forest(g: Graph, i: nat) -> Seq<u32>
    decreases i,
{
    if i == 0 {
        Seq::empty()
    } else {
        let before = dfs_iter_forest(g, (i - 1) as nat);
        let v = g.vertices()[i - 1];
        if before.contains(v) {
            before
        } else {
            stack_run(g, seq![v], before, 2 * g.vertices().len())
        }
    }
}

/// One step of the search with a stack: a vertex is pushed, the vertex on
/// top is looked at, or the vertex on top is popped.
#[derive(Clone, Copy, Debug, PartialEq, Eq, Structural)]
pub enum DfsEvent {
    Push(u32),
    Curr(u32),
    Pop(u32),
}

/// The steps that the search makes until the stack has run empty: in each
/// step the top is looked at, and then its first new target is pushed or,
/// where it has none, the top is popped. At most `fuel` steps are made.
pub open spec fn stack_trace(g: Graph, stack: Seq<u32>, done: Seq<u32>, fuel: nat) -> Seq<DfsEvent>
    decreases fuel,
{
    if fuel == 0 || stack.len() == 0 {
        Seq::empty()
    } else {
        let top = stack.last();
        match first_new(g.out(top), 0, stack, done) {
            Some(t) => seq![DfsEvent::Curr(top), DfsEvent::Push(t)] + stack_trace(
                g,
                stack.push(t),
                done,
                (fuel - 1) as nat,
            ),
            None => seq![DfsEvent::Curr(top), DfsEvent::Pop(top)] + stack_trace(
                g,
                stack.drop_last(),
                done.push(top),
                (fuel - 1) as nat,
            ),
        }
    }
}

/// The steps of the searches with a stack from the first `i` vertices of the
/// graph: each search begins by pushing its start.
pub open spec fn dfs_iter_trace(g: Graph, i: nat) -> Seq<DfsEvent>
    decreases i,
{
    if i == 0 {
        Seq::empty()
    } else {
        let before = dfs_iter_trace(g, (i - 1) as nat);
        let done = dfs_iter_forest(g, (i - 1) as nat);
        let v = g.vertices()[i - 1];
        if done.contains(v) {
            before
        } else {
            before + seq![DfsEvent::Push(v)] + stack_trace(
                g,
                seq![v],
                done,
                2 * g.vertices().len(),
            )
        }
    }
}

/// Visits every vertex of the graph depth first with an explicit stack, one
/// component after the other, and lists each vertex when the search leaves it
/// for good, that is after everything found through it.
///
/// The result lists every vertex of the graph exactly once.
pub fn depth_first_search_iter(graph: &Graph) -> (r: Vertices)
    requires
        graph.wf(),
    ensures
        r@ == dfs_iter_forest(*graph, graph.vertices().len()),
        r@.no_duplicates(),
        r@.len() == graph.vertices().len(),
        forall|v: u32| r@.contains(v) <==> graph.contains_vertex(v),
{
    let (result, _) = search_with_stack(graph, false);
    result
}

/// Visits the vertices as `depth_first_search_iter` does, and also returns
/// the steps that the search made, in order.
pub fn depth_first_search_iter_traced(graph: &Graph) -> (r: (Vertices, Vec<DfsEvent>))
    requires
        graph.wf(),
    ensures
        r.0@ == dfs_iter_forest(*graph, graph.vertices().len()),
        r.1@ == dfs_iter_trace(*graph, graph.vertices().len()),
        r.0@.no_duplicates(),
        r.0@.len() == graph.vertices().len(),
        forall|v: u32| r.0@.contains(v) <==> graph.contains_vertex(v),
{
    search_with_stack(graph, true)
}

/// The search with a stack; its steps are recorded where `record` says so.
fn search_with_stack(graph: &Graph, record: bool) -> (r: (Vertices, Vec<DfsEvent>))
    requires
        graph.wf(),
    ensures
        r.0@ == dfs_iter_forest(*graph, graph.vertices().len()),
        record ==> r.1@ == dfs_iter_trace(*graph, graph.vertices().len()),
        !record ==> r.1@.len() == 0,
        r.0@.no_duplicates(),
        r.0@.len() == graph.vertices().len(),
        forall|v: u32| r.0@.contains(v) <==> graph.contains_vertex(v),
{
    let mut visited = visited_map(graph);
    let mut result = Vertices::new();
    let mut events: Vec<DfsEvent> = Vec::new();
    let mut stack: Vec<u32> = Vec::new();
    let n = graph.vertex_count();
    let mut i: usize = 0;
    while i < n
        invariant
            graph.wf(),
            n == graph.vertices().len(),
            i <= n,
            stack@.len() == 0,
            search_state(*graph, visited@, stack@, result@),
            result@ == dfs_iter_forest(*graph, i as nat),
            record ==> events@ == dfs_iter_trace(*graph, i as nat),
            !record ==> events@.len() == 0,
            forall|j: int| 0 <= j < i ==> visited@[j],
        decreases n - i,
    {
        proof {
            assert(visited@[i as int] <==> (result@.contains(graph.vertices()[i as int])
                || stack@.contains(graph.vertices()[i as int])));
            if stack@.contains(graph.vertices()[i as int]) {
                let j = choose|j: int|
                    0 <= j < stack@.len() && stack@[j] == graph.vertices()[i as int];
            }
        }
        if !visited[i] {
            let key = graph.vertex_at(i);
            let ghost goal = stack_run(*graph, seq![key], result@, 2 * n as nat);
            let ghost steps = events@.push(DfsEvent::Push(key)) + stack_trace(
                *graph,
                seq![key],
                result@,
                2 * n as nat,
            );
            let ghost mut fuel: nat = 2 * n as nat;
            if record {
                events.push(DfsEvent::Push(key));
            }
            proof {
                lemma_search_push(*graph, visited@, stack@, result@, i as int);
                lemma_unvisited_mark(visited@, i as int);
                lemma_unvisited_bound(visited@);
                assert(stack@.push(key) =~= seq![key]);
            }
            visited[i] = true;
            stack.push(key);
            while stack.len() > 0
                invariant
                    graph.wf(),
                    n == graph.vertices().len(),
                    i < n,
                    search_state(*graph, visited@, stack@, result@),
                    fuel >= 2 * unvisited(visited@) + stack@.len(),
                    stack_run(*graph, stack@, result@, fuel) == goal,
                    record ==> events@ + stack_trace(*graph, stack@, result@, fuel) == steps,
                    !record ==> events@.len() == 0,
                    forall|j: int| 0 <= j < i + 1 ==> visited@[j],
                decreases unvisited(visited@), stack@.len(),
            {
                let top = stack[stack.len() - 1];
                let ghost told = events@;
                let ghost ahead = stack_trace(*graph, stack@, result@, fuel);
                if record {
                    events.push(DfsEvent::Curr(top));
                }
                proof {
                    assert(graph.vertices().contains(stack@[stack@.len() - 1]));
                }
                let ti = graph.position_of(top);
                let edges = graph.edges_at(ti);
                let m = edges.len();
                let mut next: Option<(u32, usize)> = None;
                let mut k: usize = 0;
                while k < m && next.is_none()
                    invariant
                        graph.wf(),
                        n == graph.vertices().len(),
                        visited@.len() == n,
                        ti < n,
                        edges@ == graph.edges_of(ti as int),
                        m == edges@.len(),
                        k <= m,
                        search_state(*graph, visited@, stack@, result@),
                        next matches Some((to, at)) ==> at < n && graph.vertices()[at as int] == to
                            && !visited@[at as int],
                        next matches Some((to, at)) ==> first_new(edges@, 0, stack@, result@)
                            == Some(to),
                        next is None ==> first_new(edges@, k as nat, stack@, result@) == first_new(
                            edges@,
                            0,
                            stack@,
                            result@,
                        ),
                    decreases m - k,
                {
                    let e = edges.get(k);
                    proof {
                        lemma_edge_at(*graph, ti as int, k as int);
                    }
                    let at = graph.position_of(e.to);
                    proof {
                        assert(visited@[at as int] <==> (result@.contains(
                            graph.vertices()[at as int],
                        ) || stack@.contains(graph.vertices()[at as int])));
                    }
                    if !visited[at] {
                        next = Some((e.to, at));
                    }
                    k += 1;
                }
                proof {
                    graph.lemma_position_unique(top, ti as int);
                    assert(edges@ == graph.out(top));
                }
                match next {
                    Some((to, at)) => {
                        proof {
                            lemma_search_push(*graph, visited@, stack@, result@, at as int);
                            lemma_unvisited_mark(visited@, at as int);
                            fuel = (fuel - 1) as nat;
                        }
                        visited[at] = true;
                        stack.push(to);
                        if record {
                            events.push(DfsEvent::Push(to));
                        }
                        proof {
                            let rest = stack_trace(*graph, stack@, result@, fuel);
                            assert(ahead == seq![DfsEvent::Curr(top), DfsEvent::Push(to)] + rest);
                            if record {
                                assert(events@ + rest =~= told + ahead);
                            }
                        }
                    },
                    None => {
                        proof {
                            lemma_search_pop(*graph, visited@, stack@, result@);
                            fuel = (fuel - 1) as nat;
                        }
                        let _ = stack.pop();
                        result.push(top);
                        if record {
                            events.push(DfsEvent::Pop(top));
                        }
                        proof {
                            let rest = stack_trace(*graph, stack@, result@, fuel);
                            assert(ahead == seq![DfsEvent::Curr(top), DfsEvent::Pop(top)] + rest);
                            if record {
                                assert(events@ + rest =~= told + ahead);
                            }
                        }
                    },
                }
            }
            proof {
                if record {
                    assert(events@ + Seq::<DfsEvent>::empty() =~= events@);
                }
            }
        }
        i += 1;
    }
    proof {
        assert(marks(*graph, visited@, result@)) by {
            assert forall|a: int| 0 <= a < visited@.len() implies (visited@[a]
                <==> result@.contains(#[trigger] graph.vertices()[a])) by {
                if stack@.contains(graph.vertices()[a]) {
                    let j = choose|j: int| 0 <= j < stack@.len() && stack@[j] == graph.vertices()[a];
                }
            }
        }
        lemma_all_marked_is_everything(*graph, visited@, result@);
    }
    (result, events)
}

/// Traversing a graph twice gives the same orders.
pub proof fn lemma_traversals_repeatable(
    g: Graph,
    first: u32,
    breadth: (Seq<u32>, Seq<u32>),
    depth: (Seq<u32>, Seq<u32>),
    stacked: (Seq<u32>, Seq<u32>),
)
    requires
        breadth.0 == bfs_order(g, first),
        breadth.1 == bfs_order(g, first),
        depth.0 == dfs_forest(g, g.vertices().len()),
        depth.1 == dfs_forest(g, g.vertices().len()),
        stacked.0 == dfs_iter_forest(g, g.vertices().len()),
        stacked.1 == dfs_iter_forest(g, g.vertices().len()),
    ensures
        breadth.0 == breadth.1,
        depth.0 == depth.1,
        stacked.0 == stacked.1,
{
}

} // verus!
