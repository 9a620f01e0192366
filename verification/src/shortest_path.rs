//! Single-source shortest paths: Bellman-Ford and Dijkstra, and the walk back
//! along predecessor links that turns their tables into a path.

use crate::distance::Distance;
use crate::edge::{Edge, Edges};
use crate::graph::{all_edges, edges_upto, Graph};
use crate::heap::{holds, risen, slot, sunk, PositionTrackingMinHeap, VertAttributes};
use crate::paths::{
    is_path, lemma_edge_at, lemma_edge_ends, lemma_path_extend, lemma_path_prefix,
    lemma_path_stays_in_graph, lemma_shorten, path_weight,
};
use std::collections::HashMap;
use vstd::prelude::*;
use vstd::set_lib::lemma_len_subset;
use vstd::std_specs::hash::group_hash_axioms;

verus! {

broadcast use group_hash_axioms;

/// The vertex reached from `v` by following `k` predecessor links, if the
/// links lead that far.
pub open spec fn ancestor<K>(preds: Map<K, K>, v: K, k: nat) -> Option<K>
    decreases k,
{
    if k == 0 {
        Some(v)
    } else {
        match ancestor(preds, v, (k - 1) as nat) {
            Some(u) => if preds.contains_key(u) {
                Some(preds[u])
            } else {
                None
            },
            None => None,
        }
    }
}

/// Following predecessor links from `end`, `start` is met after `k` links,
/// `k >= 1`, and not before.
pub open spec fn hits_at<K>(preds: Map<K, K>, start: K, end: K, k: nat) -> bool {
    &&& k >= 1
    &&& ancestor(preds, end, k) == Some(start)
    &&& forall|j: nat| 1 <= j < k ==> ancestor(preds, end, j) != Some(start)
}

/// The `k` links followed from `end`, turned round so that they lead to
/// `end`, as edges without weight.
pub open spec fn walk_back(preds: Map<u32, u32>, end: u32, k: nat) -> Seq<Edge> {
    Seq::new(
        k,
        |j: int|
            Edge {
                value: None,
                from: ancestor(preds, end, (k - j) as nat).unwrap(),
                to: ancestor(preds, end, (k - j - 1) as nat).unwrap(),
            },
    )
}

/// Once the links end, they do not go on.
pub proof fn lemma_ancestor_stuck<K>(preds: Map<K, K>, v: K, j: nat, k: nat)
    requires
        j <= k,
        ancestor(preds, v, j) is None,
    ensures
        ancestor(preds, v, k) is None,
    decreases k,
{
    if j < k {
        lemma_ancestor_stuck(preds, v, j, (k - 1) as nat);
    }
}

/// Following `k + 1` links from `v` is following `k` links from its
/// predecessor.
pub proof fn lemma_ancestor_shift<K>(preds: Map<K, K>, v: K, k: nat)
    requires
        preds.contains_key(v),
    ensures
        ancestor(preds, v, k + 1) == ancestor(preds, preds[v], k),
    decreases k,
{
    if k == 0 {
        assert(ancestor(preds, v, 0) == Some(v));
        assert(ancestor(preds, v, 1) == Some(preds[v]));
    } else {
        lemma_ancestor_shift(preds, v, (k - 1) as nat);
    }
}

/// `r` is what walking back from `end` along the links `preds` gives: the
/// links followed until `start` was met, in the direction from `start` to
/// `end`; or nothing, where `start` is never met.
pub open spec fn walked_back(preds: Map<u32, u32>, start: u32, end: u32, r: Option<Edges>) -> bool {
    match r {
        Some(path) => exists|k: nat| hits_at(preds, start, end, k) && path@ == walk_back(preds, end, k),
        None => forall|k: nat| 1 <= k ==> ancestor(preds, end, k) != Some(start),
    }
}

/// Following `a + b` links from `v` is following `b` links from where `a`
/// links lead.
pub proof fn lemma_ancestor_sum<K>(preds: Map<K, K>, v: K, a: nat, b: nat)
    requires
        ancestor(preds, v, a) is Some,
    ensures
        ancestor(preds, v, a + b) == ancestor(preds, ancestor(preds, v, a).unwrap(), b),
    decreases b,
{
    if b > 0 {
        lemma_ancestor_sum(preds, v, a, (b - 1) as nat);
    }
}

/// No more distinct keys of `preds` can be lined up than `bound`.
pub open spec fn holds_at_most<K>(preds: Map<K, K>, bound: nat) -> bool {
    forall|s: Seq<K>|
        #[trigger] s.no_duplicates() && (forall|i: int|
            0 <= i < s.len() ==> preds.contains_key(#[trigger] s[i])) ==> s.len() <= bound
}

/// Where `start` is not met within as many links as the table can hold
/// distinct keys, it is never met: a longer walk goes in a circle.
pub proof fn lemma_never_met<K>(preds: Map<K, K>, start: K, end: K, bound: nat, k: nat)
    requires
        holds_at_most(preds, bound),
        forall|j: nat| 1 <= j <= bound ==> ancestor(preds, end, j) != Some(start),
        1 <= k,
    ensures
        ancestor(preds, end, k) != Some(start),
    decreases k,
{
    if k > bound && ancestor(preds, end, k) == Some(start) {
        assert forall|m: nat| m <= k implies (#[trigger] ancestor(preds, end, m)) is Some by {
            if ancestor(preds, end, m) is None {
                lemma_ancestor_stuck(preds, end, m, k);
            }
        }
        let c = chain(preds, end, bound + 1);
        assert forall|i: int| 0 <= i < c.len() implies preds.contains_key(#[trigger] c[i]) by {
            assert(ancestor(preds, end, i as nat) is Some);
            assert(ancestor(preds, end, (i + 1) as nat) is Some);
        }
        assert(!c.no_duplicates());
        let (i, j) = choose|i: int, j: int|
            0 <= i < c.len() && 0 <= j < c.len() && i != j && c[i] == c[j];
        let (lo, hi) = if i < j {
            (i, j)
        } else {
            (j, i)
        };
        let left = (k - hi) as nat;
        assert(ancestor(preds, end, lo as nat) is Some);
        assert(ancestor(preds, end, hi as nat) is Some);
        lemma_ancestor_sum(preds, end, hi as nat, left);
        lemma_ancestor_sum(preds, end, lo as nat, left);
        assert(ancestor(preds, end, (lo + left) as nat) == Some(start));
        lemma_never_met(preds, start, end, bound, (lo + left) as nat);
    }
}

/// A table holds no more distinct keys than it has entries.
pub proof fn lemma_table_holds_at_most<K>(preds: Map<K, K>)
    requires
        preds.dom().finite(),
    ensures
        holds_at_most(preds, preds.len()),
{
    assert forall|s: Seq<K>|
        #[trigger] s.no_duplicates() && (forall|i: int|
            0 <= i < s.len() ==> preds.contains_key(#[trigger] s[i])) implies s.len()
        <= preds.len() by {
        lemma_distinct_keys_bounded(preds, s);
    }
}

/// Walking back along the same links gives the same result.
pub proof fn lemma_walked_back_once(
    preds: Map<u32, u32>,
    start: u32,
    end: u32,
    a: Option<Edges>,
    b: Option<Edges>,
)
    requires
        walked_back(preds, start, end, a),
        walked_back(preds, start, end, b),
    ensures
        a is Some <==> b is Some,
        a is Some ==> a.unwrap()@ == b.unwrap()@,
{
    if a is Some && b is Some {
        let ka = choose|k: nat|
            hits_at(preds, start, end, k) && a.unwrap()@ == walk_back(preds, end, k);
        let kb = choose|k: nat|
            hits_at(preds, start, end, k) && b.unwrap()@ == walk_back(preds, end, k);
        lemma_hits_once(preds, start, end, ka, kb);
    } else if a is Some {
        let ka = choose|k: nat|
            hits_at(preds, start, end, k) && a.unwrap()@ == walk_back(preds, end, k);
    } else if b is Some {
        let kb = choose|k: nat|
            hits_at(preds, start, end, k) && b.unwrap()@ == walk_back(preds, end, k);
    }
}

/// Walks back from `end` along the predecessor links and returns the links
/// followed, in the direction from `start` to `end`, if `start` is met.
///
/// At most as many links are followed as the table has entries: a longer
/// walk would go in a circle.
pub fn recreate_path(start: u32, end: u32, predecessors: &HashMap<u32, u32>) -> (r: Option<Edges>)
    ensures
        walked_back(predecessors@, start, end, r),
{
    let mut result = Edges::new();
    let mut curr = end;
    let mut found_start = false;
    let mut going = true;
    let total = predecessors.len();
    let mut steps: usize = 0;
    let ghost preds = predecessors@;
    while going && steps < total
        invariant
            preds == predecessors@,
            total == preds.len(),
            steps <= total,
            ancestor(preds, end, steps as nat) == Some(curr),
            result@.len() == steps,
            forall|j: int|
                0 <= j < steps ==> #[trigger] result@[j] == (Edge {
                    value: None,
                    from: ancestor(preds, end, (j + 1) as nat).unwrap(),
                    to: ancestor(preds, end, j as nat).unwrap(),
                }),
            found_start ==> !going && hits_at(preds, start, end, steps as nat),
            !found_start ==> forall|j: nat|
                1 <= j <= steps ==> ancestor(preds, end, j) != Some(start),
            !going && !found_start ==> ancestor(preds, end, (steps + 1) as nat) is None,
        decreases (if going { 1nat } else { 0nat }) + total - steps,
    {
        match predecessors.get(&curr) {
            None => {
                going = false;
            },
            Some(pred) => {
                let pred = *pred;
                result.add_edge(Edge::new(pred, curr));
                curr = pred;
                steps += 1;
                if pred == start {
                    found_start = true;
                    going = false;
                }
            },
        }
    }
    let ghost forward = result@;
    result.reverse();
    if found_start {
        proof {
            assert(result@ =~= walk_back(preds, end, steps as nat));
        }
        Some(result)
    } else {
        proof {
            assert forall|k: nat| 1 <= k <= preds.len() implies ancestor(preds, end, k) != Some(
                start,
            ) by {
                if k > steps {
                    lemma_ancestor_stuck(preds, end, (steps + 1) as nat, k);
                }
            }
            lemma_table_holds_at_most(preds);
            assert forall|k: nat| 1 <= k implies ancestor(preds, end, k) != Some(start) by {
                lemma_never_met(preds, start, end, preds.len(), k);
            }
        }
        None
    }
}

/// The table with which a search from `source` starts: the source at
/// distance zero, every other vertex of the graph at infinity, nothing with
/// a predecessor.
pub open spec fn initial_table(g: Graph, source: u32) -> Map<u32, VertAttributes<u32>> {
    Map::new(
        |v: u32| g.vertices().contains(v) || v == source,
        |v: u32|
            if v == source {
                VertAttributes { id: v, predecessor: None, distance: Distance::Dist(0) }
            } else {
                VertAttributes { id: v, predecessor: None, distance: Distance::Inf }
            },
    )
}

/// Builds the table with which a search from `source` starts.
pub fn initialize_single_source(graph: &Graph, source: u32) -> (r: HashMap<
    u32,
    VertAttributes<u32>,
>)
    requires
        graph.wf(),
    ensures
        r@ == initial_table(*graph, source),
{
    let mut result: HashMap<u32, VertAttributes<u32>> = HashMap::new();
    let n = graph.vertex_count();
    let mut i: usize = 0;
    while i < n
        invariant
            graph.wf(),
            n == graph.vertices().len(),
            i <= n,
            forall|v: u32|
                result@.contains_key(v) <==> graph.vertices().subrange(0, i as int).contains(v),
            forall|v: u32|
                result@.contains_key(v) ==> #[trigger] result@[v] == (VertAttributes {
                    id: v,
                    predecessor: None,
                    distance: Distance::Inf,
                }),
        decreases n - i,
    {
        let vert = graph.vertex_at(i);
        let attributes = VertAttributes::new_inf(vert);
        let ghost before = result@;
        result.insert(vert, attributes);
        proof {
            let a = graph.vertices().subrange(0, i as int);
            let b = graph.vertices().subrange(0, i + 1);
            assert forall|v: u32| result@.contains_key(v) <==> b.contains(v) by {
                if b.contains(v) {
                    let j = choose|j: int| 0 <= j < b.len() && b[j] == v;
                    if j < i {
                        assert(a[j] == v);
                    }
                }
                if a.contains(v) {
                    let j = choose|j: int| 0 <= j < a.len() && a[j] == v;
                    assert(b[j] == v);
                }
                if v == vert {
                    assert(b[i as int] == v);
                }
            }
        }
        i += 1;
    }
    let source_attributes = VertAttributes::new_zero(source);
    result.insert(source, source_attributes);
    proof {
        assert(graph.vertices().subrange(0, n as int) =~= graph.vertices());
        assert(result@ =~= initial_table(*graph, source));
    }
    result
}

/// The heap after the first `i` vertices of the graph, other than
/// `source`, have been inserted at infinity.
pub open spec fn heap_filled(g: Graph, source: u32, i: nat) -> Seq<VertAttributes<u32>>
    decreases i,
{
    if i == 0 {
        Seq::empty()
    } else {
        let before = heap_filled(g, source, (i - 1) as nat);
        let v = g.vertices()[i - 1];
        if v != source {
            risen(
                before.push(VertAttributes { id: v, predecessor: None, distance: Distance::Inf }),
                before.len() as int,
            )
        } else {
            before
        }
    }
}

/// The heap with which a search from `source` starts, slot by slot: the
/// vertices other than the source are inserted at infinity in the graph's
/// order, the source at zero after them.
pub open spec fn initial_heap(g: Graph, source: u32) -> Seq<VertAttributes<u32>> {
    let others = heap_filled(g, source, g.vertices().len());
    risen(
        others.push(VertAttributes { id: source, predecessor: None, distance: Distance::Dist(0) }),
        others.len() as int,
    )
}

/// Builds the heap with which a search from `source` starts: it holds the
/// records of `initial_table`.
pub fn initialize_single_source_dijkstra(graph: &Graph, source: u32) -> (r:
    PositionTrackingMinHeap<u32>)
    requires
        graph.wf(),
    ensures
        r.wf(),
        r.entries() == initial_table(*graph, source),
        r@ == initial_heap(*graph, source),
{
    let mut result: PositionTrackingMinHeap<u32> = PositionTrackingMinHeap::new();
    let n = graph.vertex_count();
    let mut i: usize = 0;
    proof {
        assert(result.entries() =~= Map::<u32, VertAttributes<u32>>::empty());
    }
    while i < n
        invariant
            graph.wf(),
            n == graph.vertices().len(),
            i <= n,
            result.wf(),
            result@ == heap_filled(*graph, source, i as nat),
            forall|v: u32|
                result.entries().contains_key(v) <==> (graph.vertices().subrange(
                    0,
                    i as int,
                ).contains(v) && v != source),
            forall|v: u32|
                result.entries().contains_key(v) ==> #[trigger] result.entries()[v]
                    == (VertAttributes { id: v, predecessor: None, distance: Distance::Inf }),
        decreases n - i,
    {
        let vert = graph.vertex_at(i);
        proof {
            let a = graph.vertices().subrange(0, i as int);
            let b = graph.vertices().subrange(0, i + 1);
            assert(b[i as int] == vert);
            if a.contains(vert) {
                let j = choose|j: int| 0 <= j < a.len() && a[j] == vert;
                assert(graph.vertices()[j] == graph.vertices()[i as int]);
            }
            assert forall|v: u32| b.contains(v) <==> (a.contains(v) || v == vert) by {
                if b.contains(v) {
                    let j = choose|j: int| 0 <= j < b.len() && b[j] == v;
                    if j < i {
                        assert(a[j] == v);
                    }
                }
                if a.contains(v) {
                    let j = choose|j: int| 0 <= j < a.len() && a[j] == v;
                    assert(b[j] == v);
                }
            }
        }
        if vert != source {
            let attributes = VertAttributes::new_inf(vert);
            result.insert(attributes);
        }
        i += 1;
    }
    let source_attributes = VertAttributes::new_zero(source);
    result.insert(source_attributes);
    proof {
        assert(graph.vertices().subrange(0, n as int) =~= graph.vertices());
        assert(result.entries() =~= initial_table(*graph, source));
    }
    result
}

/// What relaxing `edge` gives: the record that reaches the edge's target
/// through the edge, if that is strictly nearer than the target's record.
pub open spec fn relaxed(table: Map<u32, VertAttributes<u32>>, edge: Edge) -> Option<
    VertAttributes<u32>,
> {
    let through = table[edge.from].distance.spec_plus(Distance::Dist(edge.cost() as u32));
    if through.spec_lt(table[edge.to].distance) {
        Some(VertAttributes { id: edge.to, predecessor: Some(edge.from), distance: through })
    } else {
        None
    }
}

/// Relaxes `edge`: tells whether the target is nearer through the edge than
/// the table says, and returns its new record if so.
pub fn relax(attributes: &HashMap<u32, VertAttributes<u32>>, edge: &Edge) -> (r: Option<
    VertAttributes<u32>,
>)
    requires
        attributes@.contains_key(edge.from),
        attributes@.contains_key(edge.to),
    ensures
        r == relaxed(attributes@, *edge),
{
    let from_distance = match attributes.get(&edge.from) {
        Some(a) => a.distance,
        None => Distance::Inf,
    };
    let to_distance = match attributes.get(&edge.to) {
        Some(a) => a.distance,
        None => Distance::Inf,
    };
    let dist_through = from_distance + Distance::Dist(edge.weight_or_one());
    let mut result = None;
    if to_distance > dist_through {
        let new_value = VertAttributes {
            distance: dist_through,
            predecessor: Some(edge.from),
            id: edge.to,
        };
        result = Some(new_value);
    }
    result
}

/// The predecessor links that a table records.
pub open spec fn predecessors_of(table: Map<u32, VertAttributes<u32>>) -> Map<u32, u32> {
    Map::new(
        |v: u32| table.contains_key(v) && table[v].predecessor is Some,
        |v: u32| table[v].predecessor.unwrap(),
    )
}

/// The table has a record for every vertex of the graph and for nothing
/// else, each under the vertex it is about.
pub open spec fn covers(g: Graph, table: Map<u32, VertAttributes<u32>>) -> bool {
    &&& forall|v: u32| table.contains_key(v) <==> g.vertices().contains(v)
    &&& forall|v: u32| table.contains_key(v) ==> (#[trigger] table[v]).id == v
}

/// Collects the predecessor links of the table.
pub fn attributes_to_predecessors(
    graph: &Graph,
    attributes: &HashMap<u32, VertAttributes<u32>>,
) -> (r: HashMap<u32, u32>)
    requires
        graph.wf(),
        covers(*graph, attributes@),
    ensures
        r@ == predecessors_of(attributes@),
{
    let mut result: HashMap<u32, u32> = HashMap::new();
    let n = graph.vertex_count();
    let mut i: usize = 0;
    while i < n
        invariant
            graph.wf(),
            covers(*graph, attributes@),
            n == graph.vertices().len(),
            i <= n,
            forall|v: u32|
                result@.contains_key(v) <==> (graph.vertices().subrange(0, i as int).contains(v)
                    && attributes@[v].predecessor is Some),
            forall|v: u32|
                result@.contains_key(v) ==> #[trigger] result@[v]
                    == attributes@[v].predecessor.unwrap(),
        decreases n - i,
    {
        let vert = graph.vertex_at(i);
        proof {
            let a = graph.vertices().subrange(0, i as int);
            let b = graph.vertices().subrange(0, i + 1);
            assert(b[i as int] == vert);
            assert(graph.vertices().contains(vert));
            assert forall|v: u32| b.contains(v) <==> (a.contains(v) || v == vert) by {
                if b.contains(v) {
                    let j = choose|j: int| 0 <= j < b.len() && b[j] == v;
                    if j < i {
                        assert(a[j] == v);
                    }
                }
                if a.contains(v) {
                    let j = choose|j: int| 0 <= j < a.len() && a[j] == v;
                    assert(b[j] == v);
                }
            }
        }
        match attributes.get(&vert) {
            Some(attr) => {
                match attr.predecessor {
                    None => {},
                    Some(pred) => {
                        result.insert(vert, pred);
                    },
                }
            },
            None => {},
        }
        i += 1;
    }
    proof {
        assert(graph.vertices().subrange(0, n as int) =~= graph.vertices());
        assert(result@ =~= predecessors_of(attributes@));
    }
    result
}

/// `p` leads from `s` to `t`, and no walk from `s` to `t` weighs less.
pub open spec fn is_shortest_path(g: Graph, p: Seq<Edge>, s: u32, t: u32) -> bool {
    &&& is_path(g, p, s, t)
    &&& forall|q: Seq<Edge>| is_path(g, q, s, t) ==> path_weight(p) <= path_weight(q)
}

/// The edges of `p` without their weights.
pub open spec fn unweighted_path(p: Seq<Edge>) -> Seq<Edge> {
    Seq::new(p.len(), |j: int| p[j].unweighted())
}

/// What a shortest-path search from `start` to `end` answers: the steps of a
/// lightest walk from `start` to `end`, as edges without weight, where the
/// two differ and the lightest walk weighs no more than a finite distance
/// can hold; nothing otherwise.
pub open spec fn shortest_path_result(g: Graph, start: u32, end: u32, r: Option<Edges>) -> bool {
    match r {
        Some(path) => start != end && exists|p: Seq<Edge>|
            is_shortest_path(g, p, start, end) && path_weight(p) <= u32::MAX && path@
                == unweighted_path(p),
        None => start == end || forall|p: Seq<Edge>|
            is_path(g, p, start, end) ==> path_weight(p) > u32::MAX,
    }
}

/// The record of `v` is explained by its predecessor: the predecessor has a
/// finite distance, and an edge of the graph leads from it to `v` at no more
/// than the difference of their distances.
pub open spec fn linked(
    g: Graph,
    table: Map<u32, VertAttributes<u32>>,
    via: Map<u32, Edge>,
    v: u32,
) -> bool {
    let u = table[v].predecessor.unwrap();
    let e = via[v];
    &&& table.contains_key(u)
    &&& table[u].distance is Dist
    &&& g.has_edge(e)
    &&& e.from == u
    &&& e.to == v
    &&& table[u].distance.rank() + e.cost() <= table[v].distance.rank()
}

/// The table is rooted at `start`: the start is at distance zero without a
/// predecessor, exactly the other vertices at a finite distance have one, and
/// every predecessor explains its record.
pub open spec fn rooted(
    g: Graph,
    start: u32,
    table: Map<u32, VertAttributes<u32>>,
    via: Map<u32, Edge>,
) -> bool {
    &&& table.contains_key(start)
    &&& table[start].distance == Distance::Dist(0)
    &&& table[start].predecessor is None
    &&& forall|v: u32|
        table.contains_key(v) ==> ((#[trigger] table[v]).predecessor is Some <==> (
        table[v].distance is Dist && v != start))
    &&& forall|v: u32|
        table.contains_key(v) && (#[trigger] table[v]).predecessor is Some ==> linked(
            g,
            table,
            via,
            v,
        )
}

/// The record of `v` is exactly its predecessor's distance plus the edge
/// between them, and the predecessor ranks below `v`.
pub open spec fn tight(
    table: Map<u32, VertAttributes<u32>>,
    via: Map<u32, Edge>,
    rank: Map<u32, nat>,
    v: u32,
) -> bool {
    let u = table[v].predecessor.unwrap();
    &&& table[u].distance.rank() + via[v].cost() == table[v].distance.rank()
    &&& rank[u] < rank[v]
}

/// No walk from `start` that a finite distance can measure is lighter than
/// the table says.
pub open spec fn optimal(g: Graph, start: u32, table: Map<u32, VertAttributes<u32>>) -> bool {
    forall|v: u32, p: Seq<Edge>|
        table.contains_key(v) && #[trigger] is_path(g, p, start, v) && path_weight(p) <= u32::MAX
            ==> table[v].distance.rank() <= path_weight(p)
}

/// A finished table: rooted, tight everywhere and optimal.
pub open spec fn settled(
    g: Graph,
    start: u32,
    table: Map<u32, VertAttributes<u32>>,
    via: Map<u32, Edge>,
    rank: Map<u32, nat>,
) -> bool {
    &&& covers(g, table)
    &&& rooted(g, start, table, via)
    &&& forall|v: u32|
        table.contains_key(v) && (#[trigger] table[v]).predecessor is Some ==> tight(
            table,
            via,
            rank,
            v,
        )
    &&& optimal(g, start, table)
}

/// The first `k` vertices met on the way back from `v`, `v` itself first.
pub open spec fn chain<K>(preds: Map<K, K>, v: K, k: nat) -> Seq<K> {
    Seq::new(k, |m: int| ancestor(preds, v, m as nat).unwrap())
}

/// The graph edges behind the `k` links followed from `end`, in the
/// direction towards `end`.
pub open spec fn route(preds: Map<u32, u32>, via: Map<u32, Edge>, end: u32, k: nat) -> Seq<Edge> {
    Seq::new(k, |j: int| via[ancestor(preds, end, (k - j - 1) as nat).unwrap()])
}

/// In a finished table the way back from a vertex at finite distance, other
/// than the start, meets the start; the edges behind the links form a walk
/// from the start whose weight is the vertex's distance.
proof fn lemma_way_back(
    g: Graph,
    start: u32,
    table: Map<u32, VertAttributes<u32>>,
    via: Map<u32, Edge>,
    rank: Map<u32, nat>,
    v: u32,
) -> (k: nat)
    requires
        g.wf(),
        settled(g, start, table, via, rank),
        table.contains_key(v),
        table[v].distance is Dist,
        v != start,
    ensures
        hits_at(predecessors_of(table), start, v, k),
        forall|m: nat| m <= k ==> (#[trigger] ancestor(predecessors_of(table), v, m)) is Some,
        is_path(g, route(predecessors_of(table), via, v, k), start, v),
        path_weight(route(predecessors_of(table), via, v, k)) == table[v].distance.rank(),
        unweighted_path(route(predecessors_of(table), via, v, k)) == walk_back(
            predecessors_of(table),
            v,
            k,
        ),
    decreases rank[v],
{
    let preds = predecessors_of(table);
    assert(table[v].predecessor is Some);
    assert(linked(g, table, via, v));
    assert(tight(table, via, rank, v));
    let u = table[v].predecessor.unwrap();
    let e = via[v];
    assert(preds.contains_key(v) && preds[v] == u);
    lemma_ancestor_shift(preds, v, 0);
    assert(ancestor(preds, v, 0) == Some(v));
    assert(ancestor(preds, v, 1) == Some(u));
    if u == start {
        let k = 1nat;
        let r = route(preds, via, v, k);
        assert(r =~= Seq::<Edge>::empty().push(e));
        assert(is_path(g, Seq::<Edge>::empty(), start, start));
        lemma_path_extend(g, Seq::<Edge>::empty(), start, e);
        assert(unweighted_path(r) =~= walk_back(preds, v, k));
        assert forall|m: nat| m <= k implies (#[trigger] ancestor(preds, v, m)) is Some by {
            if m == 1 {
            } else {
                assert(m == 0);
            }
        }
        k
    } else {
        let k0 = lemma_way_back(g, start, table, via, rank, u);
        let k = k0 + 1;
        assert forall|m: nat| m <= k0 implies ancestor(preds, v, m + 1) == ancestor(
            preds,
            u,
            m,
        ) by {
            lemma_ancestor_shift(preds, v, m);
        }
        assert forall|m: nat| m <= k implies (#[trigger] ancestor(preds, v, m)) is Some by {
            if m >= 1 {
                assert(ancestor(preds, v, ((m - 1) as nat) + 1) == ancestor(
                    preds,
                    u,
                    (m - 1) as nat,
                ));
            }
        }
        assert(hits_at(preds, start, v, k)) by {
            assert(ancestor(preds, v, k0 + 1) == ancestor(preds, u, k0));
            assert forall|j: nat| 1 <= j < k implies ancestor(preds, v, j) != Some(start) by {
                if j >= 2 {
                    assert(ancestor(preds, v, ((j - 1) as nat) + 1) == ancestor(
                        preds,
                        u,
                        (j - 1) as nat,
                    ));
                }
            }
        }
        let r0 = route(preds, via, u, k0);
        let r = route(preds, via, v, k);
        assert(r =~= r0.push(e)) by {
            assert forall|j: int| 0 <= j < k implies r[j] == r0.push(e)[j] by {
                if j < k0 {
                    assert(ancestor(preds, v, ((k0 - j - 1) as nat) + 1) == ancestor(
                        preds,
                        u,
                        (k0 - j - 1) as nat,
                    ));
                }
            }
        }
        lemma_path_extend(g, r0, start, e);
        let w0 = walk_back(preds, u, k0);
        let w = walk_back(preds, v, k);
        assert(unweighted_path(r) =~= w) by {
            assert(unweighted_path(r0) == w0);
            assert forall|j: int| 0 <= j < k implies unweighted_path(r)[j] == w[j] by {
                if j < k0 {
                    assert(unweighted_path(r0)[j] == w0[j]);
                    assert(r[j] == r0[j]);
                    assert(ancestor(preds, v, ((k0 - j) as nat) + 1) == ancestor(
                        preds,
                        u,
                        (k0 - j) as nat,
                    ));
                    assert(ancestor(preds, v, ((k0 - j - 1) as nat) + 1) == ancestor(
                        preds,
                        u,
                        (k0 - j - 1) as nat,
                    ));
                } else {
                    assert(r[j] == e);
                }
            }
        }
        k
    }
}

/// `start` is met on the way back from `end` at one place only.
pub proof fn lemma_hits_once<K>(preds: Map<K, K>, start: K, end: K, a: nat, b: nat)
    requires
        hits_at(preds, start, end, a),
        hits_at(preds, start, end, b),
    ensures
        a == b,
{
}

/// Distinct keys of a finite table are no more than the table has entries.
pub proof fn lemma_distinct_keys_bounded<K, V>(preds: Map<K, V>, s: Seq<K>)
    requires
        preds.dom().finite(),
        s.no_duplicates(),
        forall|i: int| 0 <= i < s.len() ==> preds.contains_key(#[trigger] s[i]),
    ensures
        s.len() <= preds.len(),
{
    broadcast use vstd::seq_lib::seq_to_set_is_finite;

    s.unique_seq_to_set();
    assert(s.to_set().subset_of(preds.dom())) by {
        assert forall|v: K| s.to_set().contains(v) implies preds.dom().contains(v) by {
            let i = choose|i: int| 0 <= i < s.len() && s[i] == v;
            assert(preds.contains_key(s[i]));
        }
    }
    lemma_len_subset(s.to_set(), preds.dom());
}

/// Walking back through a finished table answers the shortest-path question.
proof fn lemma_answer(
    g: Graph,
    start: u32,
    end: u32,
    table: Map<u32, VertAttributes<u32>>,
    via: Map<u32, Edge>,
    rank: Map<u32, nat>,
    r: Option<Edges>,
)
    requires
        g.wf(),
        settled(g, start, table, via, rank),
        walked_back(predecessors_of(table), start, end, r),
    ensures
        shortest_path_result(g, start, end, r),
{
    let preds = predecessors_of(table);
    if start != end && table.contains_key(end) && table[end].distance is Dist {
        let k = lemma_way_back(g, start, table, via, rank, end);
        let p = route(preds, via, end, k);
        match r {
            Some(path) => {
                let k1 = choose|k1: nat|
                    hits_at(preds, start, end, k1) && path@ == walk_back(preds, end, k1);
                lemma_hits_once(preds, start, end, k, k1);
                assert(is_shortest_path(g, p, start, end)) by {
                    assert forall|q: Seq<Edge>| is_path(g, q, start, end) implies path_weight(p)
                        <= path_weight(q) by {
                        if path_weight(q) <= u32::MAX {
                            assert(table[end].distance.rank() <= path_weight(q));
                        }
                    }
                }
                assert(path@ == unweighted_path(p));
            },
            None => {
                assert(ancestor(preds, end, k) == Some(start));
                assert(false);
            },
        }
    } else {
        assert(!preds.contains_key(end));
        assert(ancestor(preds, end, 0) == Some(end));
        assert(ancestor(preds, end, 1) is None);
        match r {
            Some(path) => {
                let k1 = choose|k1: nat|
                    hits_at(preds, start, end, k1) && path@ == walk_back(preds, end, k1);
                lemma_ancestor_stuck(preds, end, 1, k1);
                assert(false);
            },
            None => {
                if start != end {
                    assert forall|p: Seq<Edge>| is_path(g, p, start, end) implies path_weight(p)
                        > u32::MAX by {
                        lemma_path_stays_in_graph(g, p, start, end);
                        if path_weight(p) <= u32::MAX {
                            assert(table.contains_key(end));
                            assert(table[end].distance.rank() <= path_weight(p));
                        }
                    }
                }
            },
        }
    }
}

/// Every finite distance of the table is the weight of the walk from
/// `start` that `wit` holds for the vertex.
pub open spec fn witnessed(
    g: Graph,
    start: u32,
    table: Map<u32, VertAttributes<u32>>,
    wit: Map<u32, Seq<Edge>>,
) -> bool {
    forall|v: u32|
        table.contains_key(v) && (#[trigger] table[v]).distance is Dist ==> is_path(
            g,
            wit[v],
            start,
            v,
        ) && path_weight(wit[v]) == table[v].distance.rank()
}

/// The heap holds records of the table only, and holds them as the table
/// does.
pub open spec fn heap_agrees(
    table: Map<u32, VertAttributes<u32>>,
    heap: Map<u32, VertAttributes<u32>>,
) -> bool {
    forall|v: u32| #[trigger] heap.contains_key(v) ==> table.contains_key(v) && heap[v] == table[v]
}

/// The vertex `v` has left the heap.
pub open spec fn done(
    table: Map<u32, VertAttributes<u32>>,
    heap: Map<u32, VertAttributes<u32>>,
    v: u32,
) -> bool {
    table.contains_key(v) && !heap.contains_key(v)
}

/// Every predecessor has left the heap, as one of the first `count` vertices
/// and before the vertex it leads to; the record of that vertex is its
/// predecessor's distance plus the edge between them.
pub open spec fn preds_done(
    table: Map<u32, VertAttributes<u32>>,
    heap: Map<u32, VertAttributes<u32>>,
    via: Map<u32, Edge>,
    rank: Map<u32, nat>,
    count: nat,
) -> bool {
    forall|v: u32|
        table.contains_key(v) && (#[trigger] table[v]).predecessor is Some ==> {
            let u = table[v].predecessor.unwrap();
            &&& !heap.contains_key(u)
            &&& table[u].distance.rank() + via[v].cost() == table[v].distance.rank()
            &&& rank[u] < count
            &&& (!heap.contains_key(v) ==> rank[u] < rank[v])
        }
}

/// The vertices that have left the heap rank below `count`.
pub open spec fn ranks_bounded(
    table: Map<u32, VertAttributes<u32>>,
    heap: Map<u32, VertAttributes<u32>>,
    rank: Map<u32, nat>,
    count: nat,
) -> bool {
    forall|v: u32| #[trigger] done(table, heap, v) ==> rank[v] < count
}

/// For the vertices that have left the heap the table is optimal.
pub open spec fn done_optimal(
    g: Graph,
    start: u32,
    table: Map<u32, VertAttributes<u32>>,
    heap: Map<u32, VertAttributes<u32>>,
) -> bool {
    forall|v: u32, p: Seq<Edge>|
        done(table, heap, v) && #[trigger] is_path(g, p, start, v) && path_weight(p) <= u32::MAX
            ==> table[v].distance.rank() <= path_weight(p)
}

/// The target of `e` is no further than its source and the edge together,
/// where a finite distance can hold that sum.
pub open spec fn edge_relaxed(table: Map<u32, VertAttributes<u32>>, e: Edge) -> bool {
    table[e.from].distance is Dist && table[e.from].distance.rank() + e.cost() <= u32::MAX
        ==> table[e.to].distance.rank() <= table[e.from].distance.rank() + e.cost()
}

/// The edges that leave a vertex which has left the heap are relaxed; of
/// those leaving `cur`, the first `upto` only.
pub open spec fn done_relaxed(
    g: Graph,
    table: Map<u32, VertAttributes<u32>>,
    heap: Map<u32, VertAttributes<u32>>,
    cur: u32,
    upto: int,
) -> bool {
    forall|x: u32, k: int|
        done(table, heap, x) && 0 <= k < g.out(x).len() && (x == cur ==> k < upto)
            ==> edge_relaxed(table, #[trigger] g.out(x)[k])
}

/// What holds of Dijkstra's search between two steps.
#[verifier::opaque]
pub open spec fn search_inv(
    g: Graph,
    start: u32,
    table: Map<u32, VertAttributes<u32>>,
    heap: Map<u32, VertAttributes<u32>>,
    wit: Map<u32, Seq<Edge>>,
    via: Map<u32, Edge>,
    rank: Map<u32, nat>,
    count: nat,
    cur: u32,
    upto: int,
) -> bool {
    &&& covers(g, table)
    &&& rooted(g, start, table, via)
    &&& witnessed(g, start, table, wit)
    &&& heap_agrees(table, heap)
    &&& preds_done(table, heap, via, rank, count)
    &&& ranks_bounded(table, heap, rank, count)
    &&& done_optimal(g, start, table, heap)
    &&& done_relaxed(g, table, heap, cur, upto)
}

/// The edge at place `k` among those leaving the vertex `u`.
proof fn lemma_out_edge(g: Graph, u: u32, k: int)
    requires
        g.wf(),
        g.vertices().contains(u),
        0 <= k < g.out(u).len(),
    ensures
        g.has_edge(g.out(u)[k]),
        g.out(u)[k].from == u,
        g.vertices().contains(g.out(u)[k].to),
{
    let i = g.vertices().index_of(u);
    lemma_edge_at(g, i, k);
}

/// A walk from `start` either passes a vertex still in the heap that is no
/// further than the walk is heavy, or ends at a vertex that has left the heap
/// and is no further than that.
proof fn lemma_frontier(
    g: Graph,
    start: u32,
    table: Map<u32, VertAttributes<u32>>,
    heap: Map<u32, VertAttributes<u32>>,
    via: Map<u32, Edge>,
    cur: u32,
    upto: int,
    p: Seq<Edge>,
    v: u32,
)
    requires
        g.wf(),
        covers(g, table),
        rooted(g, start, table, via),
        heap_agrees(table, heap),
        done_optimal(g, start, table, heap),
        done_relaxed(g, table, heap, cur, upto),
        upto >= g.out(cur).len(),
        is_path(g, p, start, v),
        path_weight(p) <= u32::MAX,
    ensures
        (exists|y: u32| #[trigger]
            heap.contains_key(y) && table[y].distance.rank() <= path_weight(p)) || (done(
            table,
            heap,
            v,
        ) && table[v].distance.rank() <= path_weight(p)),
    decreases p.len(),
{
    if p.len() == 0 {
        assert(v == start);
        if heap.contains_key(start) {
        }
    } else {
        let e = p.last();
        let q = p.drop_last();
        lemma_path_prefix(g, p, start, v);
        lemma_edge_ends(g, e);
        lemma_frontier(g, start, table, heap, via, cur, upto, q, e.from);
        if exists|y: u32| #[trigger]
            heap.contains_key(y) && table[y].distance.rank() <= path_weight(q) {
            let y = choose|y: u32| #[trigger]
                heap.contains_key(y) && table[y].distance.rank() <= path_weight(q);
            assert(heap.contains_key(y) && table[y].distance.rank() <= path_weight(p));
        } else {
            let x = e.from;
            let k = choose|k: int| 0 <= k < g.out(x).len() && g.out(x)[k] == e;
            assert(edge_relaxed(table, g.out(x)[k]));
            if heap.contains_key(v) {
            }
        }
    }
}

/// What the steps of the search need to know of its state.
proof fn lemma_search_parts(
    g: Graph,
    start: u32,
    table: Map<u32, VertAttributes<u32>>,
    heap: Map<u32, VertAttributes<u32>>,
    wit: Map<u32, Seq<Edge>>,
    via: Map<u32, Edge>,
    rank: Map<u32, nat>,
    count: nat,
    cur: u32,
    upto: int,
)
    requires
        search_inv(g, start, table, heap, wit, via, rank, count, cur, upto),
    ensures
        covers(g, table),
        heap_agrees(table, heap),
{
    reveal(search_inv);
}

/// The edges that leave `cur` may be counted as relaxed up to any place, as
/// long as `cur` is still in the heap.
proof fn lemma_search_not_begun(
    g: Graph,
    start: u32,
    table: Map<u32, VertAttributes<u32>>,
    heap: Map<u32, VertAttributes<u32>>,
    wit: Map<u32, Seq<Edge>>,
    via: Map<u32, Edge>,
    rank: Map<u32, nat>,
    count: nat,
    cur: u32,
    upto: int,
    other: int,
)
    requires
        search_inv(g, start, table, heap, wit, via, rank, count, cur, upto),
        heap.contains_key(cur),
    ensures
        search_inv(g, start, table, heap, wit, via, rank, count, cur, other),
{
    reveal(search_inv);
}

/// Before the first step the search is in order.
proof fn lemma_search_start(g: Graph, start: u32)
    requires
        g.wf(),
        g.vertices().contains(start),
    ensures
        search_inv(
            g,
            start,
            initial_table(g, start),
            initial_table(g, start),
            Map::total(|v: u32| Seq::<Edge>::empty()),
            Map::total(|v: u32| Edge { value: None, from: 0, to: 0 }),
            Map::total(|v: u32| 0nat),
            0,
            start,
            0,
        ),
{
    reveal(search_inv);
    let t = initial_table(g, start);
    let wit = Map::total(|v: u32| Seq::<Edge>::empty());
    assert(is_path(g, wit[start], start, start));
    assert(path_weight(wit[start]) == 0);
}

/// Taking the nearest vertex out of the heap keeps the search in order.
proof fn lemma_search_extract(
    g: Graph,
    start: u32,
    table: Map<u32, VertAttributes<u32>>,
    heap: Map<u32, VertAttributes<u32>>,
    wit: Map<u32, Seq<Edge>>,
    via: Map<u32, Edge>,
    rank: Map<u32, nat>,
    count: nat,
    cur: u32,
    upto: int,
    u: u32,
)
    requires
        g.wf(),
        search_inv(g, start, table, heap, wit, via, rank, count, cur, upto),
        upto >= g.out(cur).len(),
        heap.contains_key(u),
        forall|y: u32| #[trigger]
            heap.contains_key(y) ==> heap[u].distance.spec_le(heap[y].distance),
    ensures
        search_inv(
            g,
            start,
            table,
            heap.remove(u),
            wit,
            via,
            rank.insert(u, count),
            count + 1,
            u,
            0,
        ),
{
    reveal(search_inv);
    let h2 = heap.remove(u);
    let rank2 = rank.insert(u, count);
    assert forall|v: u32, p: Seq<Edge>|
        done(table, h2, v) && #[trigger] is_path(g, p, start, v) && path_weight(p)
            <= u32::MAX implies table[v].distance.rank() <= path_weight(p) by {
        if v == u {
            lemma_frontier(g, start, table, heap, via, cur, upto, p, v);
            let y = choose|y: u32| #[trigger]
                heap.contains_key(y) && table[y].distance.rank() <= path_weight(p);
            assert(heap[u].distance.spec_le(heap[y].distance));
        } else {
            assert(done(table, heap, v));
        }
    }
    assert forall|v: u32|
        table.contains_key(v) && (#[trigger] table[v]).predecessor is Some implies {
        let w = table[v].predecessor.unwrap();
        &&& !h2.contains_key(w)
        &&& table[w].distance.rank() + via[v].cost() == table[v].distance.rank()
        &&& rank2[w] < count + 1
        &&& (!h2.contains_key(v) ==> rank2[w] < rank2[v])
    } by {
        let w = table[v].predecessor.unwrap();
        assert(w != u);
    }
    assert forall|v: u32| #[trigger] done(table, h2, v) implies rank2[v] < count + 1 by {
        if v != u {
            assert(done(table, heap, v));
        }
    }
    assert forall|x: u32, k: int|
        done(table, h2, x) && 0 <= k < g.out(x).len() && (x == u ==> k < 0) implies edge_relaxed(
        table,
        #[trigger] g.out(x)[k],
    ) by {
        assert(done(table, heap, x));
    }
}

/// Lowering the record of a vertex in the heap to what relaxing an edge from
/// the vertex just taken out gives keeps the search in order.
proof fn lemma_search_update(
    g: Graph,
    start: u32,
    table: Map<u32, VertAttributes<u32>>,
    heap: Map<u32, VertAttributes<u32>>,
    wit: Map<u32, Seq<Edge>>,
    via: Map<u32, Edge>,
    rank: Map<u32, nat>,
    count: nat,
    u: u32,
    k: int,
    new: VertAttributes<u32>,
)
    requires
        g.wf(),
        search_inv(g, start, table, heap, wit, via, rank, count, u, k),
        done(table, heap, u),
        0 <= k < g.out(u).len(),
        heap.contains_key(g.out(u)[k].to),
        relaxed(table, g.out(u)[k]) == Some(new),
    ensures
        search_inv(
            g,
            start,
            table.insert(g.out(u)[k].to, new),
            heap.insert(g.out(u)[k].to, new),
            wit.insert(g.out(u)[k].to, wit[u].push(g.out(u)[k])),
            via.insert(g.out(u)[k].to, g.out(u)[k]),
            rank,
            count,
            u,
            k + 1,
        ),
{
    reveal(search_inv);
    let e = g.out(u)[k];
    let v = e.to;
    lemma_out_edge(g, u, k);
    let t2 = table.insert(v, new);
    let h2 = heap.insert(v, new);
    let wit2 = wit.insert(v, wit[u].push(e));
    let via2 = via.insert(v, e);
    assert(table[u].distance is Dist);
    assert(new.distance is Dist);
    assert(v != start);
    assert(v != u);
    lemma_path_extend(g, wit[u], start, e);
    assert(covers(g, t2));
    assert(rooted(g, start, t2, via2)) by {
        assert forall|w: u32|
            t2.contains_key(w) && (#[trigger] t2[w]).predecessor is Some implies linked(
            g,
            t2,
            via2,
            w,
        ) by {
            if w != v {
                assert(linked(g, table, via, w));
                assert(table[w].predecessor is Some);
            }
        }
        assert forall|w: u32| t2.contains_key(w) implies ((#[trigger] t2[w]).predecessor is Some
            <==> (t2[w].distance is Dist && w != start)) by {
            if w != v {
                assert(t2[w] == table[w]);
            }
        }
    }
    assert(witnessed(g, start, t2, wit2)) by {
        assert forall|w: u32|
            t2.contains_key(w) && (#[trigger] t2[w]).distance is Dist implies is_path(
            g,
            wit2[w],
            start,
            w,
        ) && path_weight(wit2[w]) == t2[w].distance.rank() by {
            if w != v {
                assert(t2[w] == table[w]);
            }
        }
    }
    assert(heap_agrees(t2, h2));
    assert(preds_done(t2, h2, via2, rank, count)) by {
        assert(done(table, heap, u));
        assert forall|w: u32|
            t2.contains_key(w) && (#[trigger] t2[w]).predecessor is Some implies {
            let x = t2[w].predecessor.unwrap();
            &&& !h2.contains_key(x)
            &&& t2[x].distance.rank() + via2[w].cost() == t2[w].distance.rank()
            &&& rank[x] < count
            &&& (!h2.contains_key(w) ==> rank[x] < rank[w])
        } by {
            if w != v {
                assert(t2[w] == table[w]);
                assert(table[w].predecessor is Some);
            }
        }
    }
    assert(ranks_bounded(t2, h2, rank, count)) by {
        assert forall|w: u32| #[trigger] done(t2, h2, w) implies rank[w] < count by {
            assert(done(table, heap, w));
        }
    }
    assert(done_optimal(g, start, t2, h2)) by {
        assert forall|w: u32, p: Seq<Edge>|
            done(t2, h2, w) && #[trigger] is_path(g, p, start, w) && path_weight(p)
                <= u32::MAX implies t2[w].distance.rank() <= path_weight(p) by {
            assert(done(table, heap, w));
        }
    }
    assert(done_relaxed(g, t2, h2, u, k + 1)) by {
        assert forall|x: u32, j: int|
            done(t2, h2, x) && 0 <= j < g.out(x).len() && (x == u ==> j < k + 1)
                implies edge_relaxed(t2, #[trigger] g.out(x)[j]) by {
            assert(done(table, heap, x));
            lemma_out_edge(g, x, j);
            if x == u && j == k {
            } else {
                assert(edge_relaxed(table, g.out(x)[j]));
            }
        }
    }
}

/// Leaving the table as it is, where relaxing the edge gives nothing or the
/// edge's target has left the heap, keeps the search in order.
proof fn lemma_search_skip(
    g: Graph,
    start: u32,
    table: Map<u32, VertAttributes<u32>>,
    heap: Map<u32, VertAttributes<u32>>,
    wit: Map<u32, Seq<Edge>>,
    via: Map<u32, Edge>,
    rank: Map<u32, nat>,
    count: nat,
    u: u32,
    k: int,
)
    requires
        g.wf(),
        search_inv(g, start, table, heap, wit, via, rank, count, u, k),
        done(table, heap, u),
        0 <= k < g.out(u).len(),
        relaxed(table, g.out(u)[k]) is None || !heap.contains_key(g.out(u)[k].to),
    ensures
        search_inv(g, start, table, heap, wit, via, rank, count, u, k + 1),
{
    reveal(search_inv);
    let e = g.out(u)[k];
    let v = e.to;
    lemma_out_edge(g, u, k);
    assert(edge_relaxed(table, e)) by {
        if table[u].distance is Dist && table[u].distance.rank() + e.cost() <= u32::MAX {
            if relaxed(table, e) is None {
            } else {
                lemma_path_extend(g, wit[u], start, e);
                assert(done(table, heap, v));
                assert(is_path(g, wit[u].push(e), start, v));
            }
        }
    }
    assert forall|x: u32, j: int|
        done(table, heap, x) && 0 <= j < g.out(x).len() && (x == u ==> j < k + 1)
            implies edge_relaxed(table, #[trigger] g.out(x)[j]) by {
        if x == u && j == k {
        }
    }
}

/// When the heap is empty the table is finished.
proof fn lemma_search_end(
    g: Graph,
    start: u32,
    table: Map<u32, VertAttributes<u32>>,
    heap: Map<u32, VertAttributes<u32>>,
    wit: Map<u32, Seq<Edge>>,
    via: Map<u32, Edge>,
    rank: Map<u32, nat>,
    count: nat,
    cur: u32,
    upto: int,
)
    requires
        g.wf(),
        search_inv(g, start, table, heap, wit, via, rank, count, cur, upto),
        forall|v: u32| !heap.contains_key(v),
    ensures
        settled(g, start, table, via, rank),
{
    reveal(search_inv);
    assert forall|v: u32, p: Seq<Edge>|
        table.contains_key(v) && #[trigger] is_path(g, p, start, v) && path_weight(p)
            <= u32::MAX implies table[v].distance.rank() <= path_weight(p) by {
        assert(done(table, heap, v));
    }
}

/// Where `start` is no vertex of the graph, no walk leads from it to another
/// vertex.
proof fn lemma_no_way_from_outside(g: Graph, start: u32, end: u32)
    requires
        g.wf(),
        !g.vertices().contains(start),
    ensures
        shortest_path_result(g, start, end, None),
{
    if start != end {
        assert forall|p: Seq<Edge>| is_path(g, p, start, end) implies path_weight(p)
            > u32::MAX by {
            lemma_path_stays_in_graph(g, p, start, end);
        }
    }
}

/// Table and heap after the edges from place `k` on have been relaxed: where
/// relaxing an edge offers a nearer record for its target and the heap
/// still holds the target, the record goes into the table and takes the
/// target's place in the heap, where it rises.
pub open spec fn lowered_along(
    table: Map<u32, VertAttributes<u32>>,
    heap: Seq<VertAttributes<u32>>,
    edges: Seq<Edge>,
    k: nat,
) -> (Map<u32, VertAttributes<u32>>, Seq<VertAttributes<u32>>)
    decreases edges.len() - k,
{
    if k >= edges.len() {
        (table, heap)
    } else {
        let e = edges[k as int];
        let next = match relaxed(table, e) {
            Some(new) => if holds(heap, e.to) {
                (
                    table.insert(e.to, new),
                    risen(heap.update(slot(heap, e.to), new), slot(heap, e.to)),
                )
            } else {
                (table, heap)
            },
            None => (table, heap),
        };
        lowered_along(next.0, next.1, edges, k + 1)
    }
}

/// The table that Dijkstra's search ends with, given its table and heap now:
/// the root leaves the heap, the last record takes its place and sinks, and
/// the edges that leave the root's vertex are relaxed; so on until the heap
/// is empty, `fuel` times at most.
pub open spec fn dijkstra_table(
    g: Graph,
    table: Map<u32, VertAttributes<u32>>,
    heap: Seq<VertAttributes<u32>>,
    fuel: nat,
) -> Map<u32, VertAttributes<u32>>
    decreases fuel,
{
    if fuel == 0 || heap.len() == 0 {
        table
    } else {
        let u = heap[0].id;
        let rest = sunk(heap.update(0, heap.last()).drop_last(), 0);
        let next = lowered_along(table, rest, g.out(u), 0);
        dijkstra_table(g, next.0, next.1, (fuel - 1) as nat)
    }
}

/// What Dijkstra's search answers, exactly: nothing where `start` is no
/// vertex of the graph, and else what walking back from `end` gives in the
/// table that the search ends with.
pub open spec fn dijkstra_answer(g: Graph, start: u32, end: u32, r: Option<Edges>) -> bool {
    if g.vertices().contains(start) {
        walked_back(
            predecessors_of(
                dijkstra_table(
                    g,
                    initial_table(g, start),
                    initial_heap(g, start),
                    initial_heap(g, start).len(),
                ),
            ),
            start,
            end,
            r,
        )
    } else {
        r is None
    }
}

/// Searching twice with Dijkstra's algorithm gives the same answer.
pub proof fn lemma_dijkstra_repeatable(
    g: Graph,
    start: u32,
    end: u32,
    a: Option<Edges>,
    b: Option<Edges>,
)
    requires
        dijkstra_answer(g, start, end, a),
        dijkstra_answer(g, start, end, b),
    ensures
        a is Some <==> b is Some,
        a is Some ==> a.unwrap()@ == b.unwrap()@,
{
    if g.vertices().contains(start) {
        lemma_walked_back_once(
            predecessors_of(
                dijkstra_table(
                    g,
                    initial_table(g, start),
                    initial_heap(g, start),
                    initial_heap(g, start).len(),
                ),
            ),
            start,
            end,
            a,
            b,
        );
    }
}

/// Finds a lightest walk from `start` to `end` with Dijkstra's algorithm.
///
/// The vertices leave the heap nearest first; when one leaves, the edges
/// that leave it are relaxed towards the vertices still in the heap. The
/// answer is read off the predecessor links once the heap is empty.
pub fn shortest_path_dijkstra(graph: &Graph, start: u32, end: u32) -> (r: Option<Edges>)
    requires
        graph.wf(),
    ensures
        shortest_path_result(*graph, start, end, r),
        dijkstra_answer(*graph, start, end, r),
{
    if graph.position(start).is_none() {
        proof {
            lemma_no_way_from_outside(*graph, start, end);
        }
        return None;
    }
    let mut attributes = initialize_single_source(graph, start);
    let mut heap = initialize_single_source_dijkstra(graph, start);
    let ghost mut wit: Map<u32, Seq<Edge>> = Map::total(|v: u32| Seq::<Edge>::empty());
    let ghost mut via: Map<u32, Edge> = Map::total(|v: u32| Edge { value: None, from: 0, to: 0 });
    let ghost mut rank: Map<u32, nat> = Map::total(|v: u32| 0nat);
    let ghost mut count: nat = 0;
    let ghost mut cur: u32 = start;
    let ghost mut upto: int = 0;
    proof {
        lemma_search_start(*graph, start);
        assert(heap.entries().contains_key(start));
        lemma_search_not_begun(
            *graph,
            start,
            attributes@,
            heap.entries(),
            wit,
            via,
            rank,
            count,
            cur,
            upto,
            graph.out(start).len() as int,
        );
        upto = graph.out(start).len() as int;
    }
    let ghost goal = dijkstra_table(*graph, attributes@, heap@, heap@.len());
    while !heap.is_empty()
        invariant
            graph.wf(),
            heap.wf(),
            dijkstra_table(*graph, attributes@, heap@, heap@.len()) == goal,
            search_inv(
                *graph,
                start,
                attributes@,
                heap.entries(),
                wit,
                via,
                rank,
                count,
                cur,
                upto,
            ),
            upto >= graph.out(cur).len(),
        decreases heap@.len(),
    {
        let ghost before = heap.entries();
        let ghost before_len = heap@.len();
        let vert_attr = heap.extract_min();
        let u = vert_attr.id;
        let ghost popped_table = attributes@;
        let ghost popped_heap = heap@;
        proof {
            assert(before.contains_key(u));
            lemma_search_extract(
                *graph,
                start,
                attributes@,
                before,
                wit,
                via,
                rank,
                count,
                cur,
                upto,
                u,
            );
            lemma_search_parts(
                *graph,
                start,
                attributes@,
                heap.entries(),
                wit,
                via,
                rank.insert(u, count),
                count + 1,
                u,
                0,
            );
            assert(before.contains_key(u) ==> attributes@.contains_key(u)) by {
                lemma_search_parts(*graph, start, attributes@, before, wit, via, rank, count, cur, upto);
            }
            rank = rank.insert(u, count);
            count = count + 1;
            cur = u;
            upto = 0;
        }
        let ui = graph.position_of(u);
        let edges = graph.edges_at(ui);
        proof {
            graph.lemma_position_unique(u, ui as int);
        }
        let m = edges.len();
        let mut k: usize = 0;
        while k < m
            invariant
                graph.wf(),
                heap.wf(),
                edges@ == graph.out(u),
                graph.vertices().contains(u),
                m == edges@.len(),
                k <= m,
                cur == u,
                upto == k,
                done(attributes@, heap.entries(), u),
                heap@.len() == before_len - 1,
                lowered_along(attributes@, heap@, graph.out(u), k as nat) == lowered_along(
                    popped_table,
                    popped_heap,
                    graph.out(u),
                    0,
                ),
                search_inv(
                    *graph,
                    start,
                    attributes@,
                    heap.entries(),
                    wit,
                    via,
                    rank,
                    count,
                    cur,
                    upto,
                ),
            decreases m - k,
        {
            let edge = edges.get(k);
            proof {
                lemma_out_edge(*graph, u, k as int);
            }
            let ghost table = attributes@;
            let ghost entries = heap.entries();
            proof {
                lemma_search_parts(*graph, start, table, entries, wit, via, rank, count, u, k as int);
            }
            let mut updated = false;
            if let Some(new_attribute) = relax(&attributes, &edge) {
                if let Some(idx) = heap.vert_index(edge.to) {
                    proof {
                        lemma_search_update(
                            *graph,
                            start,
                            table,
                            entries,
                            wit,
                            via,
                            rank,
                            count,
                            u,
                            k as int,
                            new_attribute,
                        );
                    }
                    attributes.insert(edge.to, new_attribute);
                    heap.heap_decrease_key(idx, new_attribute);
                    proof {
                        wit = wit.insert(edge.to, wit[u].push(edge));
                        via = via.insert(edge.to, edge);
                    }
                    updated = true;
                }
            }
            proof {
                if !updated {
                    lemma_search_skip(
                        *graph,
                        start,
                        table,
                        entries,
                        wit,
                        via,
                        rank,
                        count,
                        u,
                        k as int,
                    );
                }
                upto = k + 1;
            }
            k += 1;
        }
    }
    proof {
        assert forall|v: u32| !heap.entries().contains_key(v) by {
            if heap.entries().contains_key(v) {
                let i = crate::heap::slot(heap@, v);
            }
        }
        lemma_search_end(
            *graph,
            start,
            attributes@,
            heap.entries(),
            wit,
            via,
            rank,
            count,
            cur,
            upto,
        );
    }
    let predecessors = attributes_to_predecessors(graph, &attributes);
    let r = recreate_path(start, end, &predecessors);
    proof {
        lemma_answer(*graph, start, end, attributes@, via, rank, r);
    }
    r
}

/// The table after `e` has been relaxed.
pub open spec fn relax_step(table: Map<u32, VertAttributes<u32>>, e: Edge) -> Map<
    u32,
    VertAttributes<u32>,
> {
    match relaxed(table, e) {
        Some(new) => table.insert(e.to, new),
        None => table,
    }
}

/// The table after the edges have been relaxed one after the other.
pub open spec fn relax_along(table: Map<u32, VertAttributes<u32>>, edges: Seq<Edge>) -> Map<
    u32,
    VertAttributes<u32>,
>
    decreases edges.len(),
{
    if edges.len() == 0 {
        table
    } else {
        relax_step(relax_along(table, edges.drop_last()), edges.last())
    }
}

/// Bellman-Ford's table after `rounds` rounds: in each round every edge of
/// the graph is relaxed once, in storage order.
pub open spec fn bellman_ford_table(g: Graph, start: u32, rounds: nat) -> Map<
    u32,
    VertAttributes<u32>,
>
    decreases rounds,
{
    if rounds == 0 {
        initial_table(g, start)
    } else {
        relax_along(bellman_ford_table(g, start, (rounds - 1) as nat), all_edges(g))
    }
}

/// What Bellman-Ford's proof remembers beside the table: for each vertex the
/// walk that its distance measures, the edge by which it was last reached,
/// and when that was.
pub struct Trail {
    pub wit: Map<u32, Seq<Edge>>,
    pub via: Map<u32, Edge>,
    pub stamp: Map<u32, nat>,
    pub clock: nat,
}

/// Every record was last changed before `clock`, and a vertex whose record
/// is exactly its predecessor's distance plus the edge between them was
/// changed after its predecessor.
pub open spec fn stamped(
    table: Map<u32, VertAttributes<u32>>,
    via: Map<u32, Edge>,
    stamp: Map<u32, nat>,
    clock: nat,
) -> bool {
    &&& forall|v: u32| table.contains_key(v) ==> #[trigger] stamp[v] < clock
    &&& forall|v: u32|
        table.contains_key(v) && (#[trigger] table[v]).predecessor is Some
            && table[table[v].predecessor.unwrap()].distance.rank() + via[v].cost()
            == table[v].distance.rank() ==> stamp[table[v].predecessor.unwrap()] < stamp[v]
}

/// No walk from `start` of at most `k` edges that a finite distance can
/// measure is lighter than the table says.
pub open spec fn bounded_optimal(
    g: Graph,
    start: u32,
    table: Map<u32, VertAttributes<u32>>,
    k: nat,
) -> bool {
    forall|v: u32, p: Seq<Edge>|
        table.contains_key(v) && #[trigger] is_path(g, p, start, v) && p.len() <= k
            && path_weight(p) <= u32::MAX ==> table[v].distance.rank() <= path_weight(p)
}

/// What holds of Bellman-Ford's table after `k` rounds.
#[verifier::opaque]
pub open spec fn rounds_inv(
    g: Graph,
    start: u32,
    table: Map<u32, VertAttributes<u32>>,
    trail: Trail,
    k: nat,
) -> bool {
    &&& covers(g, table)
    &&& rooted(g, start, table, trail.via)
    &&& witnessed(g, start, table, trail.wit)
    &&& stamped(table, trail.via, trail.stamp, trail.clock)
    &&& bounded_optimal(g, start, table, k)
}

/// The target of `e` is now no further than its source was when the round
/// began and the edge together, where a finite distance can hold that sum.
pub open spec fn pass_relaxed(
    table: Map<u32, VertAttributes<u32>>,
    begun: Map<u32, VertAttributes<u32>>,
    e: Edge,
) -> bool {
    begun[e.from].distance is Dist && begun[e.from].distance.rank() + e.cost() <= u32::MAX
        ==> table[e.to].distance.rank() <= begun[e.from].distance.rank() + e.cost()
}

/// The edges of the vertices before position `i`, and the first `j` edges of
/// the vertex at position `i`, have been relaxed in this round.
pub open spec fn processed(
    g: Graph,
    table: Map<u32, VertAttributes<u32>>,
    begun: Map<u32, VertAttributes<u32>>,
    i: int,
    j: int,
) -> bool {
    forall|a: int, b: int|
        0 <= a < g.vertices().len() && 0 <= b < g.edges_of(a).len() && (a < i || (a == i && b
            < j)) ==> pass_relaxed(table, begun, #[trigger] g.edges_of(a)[b])
}

/// No vertex is further now than when the round began.
pub open spec fn no_further(
    table: Map<u32, VertAttributes<u32>>,
    begun: Map<u32, VertAttributes<u32>>,
) -> bool {
    forall|v: u32|
        begun.contains_key(v) ==> table[v].distance.rank() <= (#[trigger] begun[v]).distance.rank()
}

/// What holds in the middle of round `k + 1`.
#[verifier::opaque]
pub open spec fn pass_inv(
    g: Graph,
    start: u32,
    table: Map<u32, VertAttributes<u32>>,
    begun: Map<u32, VertAttributes<u32>>,
    trail: Trail,
    k: nat,
    i: int,
    j: int,
) -> bool {
    &&& covers(g, table)
    &&& covers(g, begun)
    &&& rooted(g, start, table, trail.via)
    &&& witnessed(g, start, table, trail.wit)
    &&& stamped(table, trail.via, trail.stamp, trail.clock)
    &&& bounded_optimal(g, start, begun, k)
    &&& no_further(table, begun)
    &&& processed(g, table, begun, i, j)
}

/// Before the first round the table is in order.
proof fn lemma_rounds_start(g: Graph, start: u32)
    requires
        g.wf(),
        g.vertices().contains(start),
    ensures
        rounds_inv(
            g,
            start,
            initial_table(g, start),
            Trail {
                wit: Map::total(|v: u32| Seq::<Edge>::empty()),
                via: Map::total(|v: u32| Edge { value: None, from: 0, to: 0 }),
                stamp: Map::total(|v: u32| 0nat),
                clock: 1,
            },
            0,
        ),
{
    reveal(rounds_inv);
    let wit = Map::total(|v: u32| Seq::<Edge>::empty());
    assert(is_path(g, wit[start], start, start));
    assert(path_weight(wit[start]) == 0);
    let t = initial_table(g, start);
    assert forall|v: u32, p: Seq<Edge>|
        t.contains_key(v) && #[trigger] is_path(g, p, start, v) && p.len() <= 0 && path_weight(p)
            <= u32::MAX implies t[v].distance.rank() <= path_weight(p) by {
        assert(v == start);
    }
}

/// A round begins in order.
proof fn lemma_pass_begin(
    g: Graph,
    start: u32,
    table: Map<u32, VertAttributes<u32>>,
    trail: Trail,
    k: nat,
)
    requires
        rounds_inv(g, start, table, trail, k),
    ensures
        pass_inv(g, start, table, table, trail, k, 0, 0),
{
    reveal(rounds_inv);
    reveal(pass_inv);
}

/// What the steps of a round need to know of the table.
proof fn lemma_pass_parts(
    g: Graph,
    start: u32,
    table: Map<u32, VertAttributes<u32>>,
    begun: Map<u32, VertAttributes<u32>>,
    trail: Trail,
    k: nat,
    i: int,
    j: int,
)
    requires
        pass_inv(g, start, table, begun, trail, k, i, j),
    ensures
        covers(g, table),
{
    reveal(pass_inv);
}

/// When the edges of a vertex are dealt with, the round goes on to the
/// next vertex.
proof fn lemma_pass_next_vertex(
    g: Graph,
    start: u32,
    table: Map<u32, VertAttributes<u32>>,
    begun: Map<u32, VertAttributes<u32>>,
    trail: Trail,
    k: nat,
    i: int,
    j: int,
)
    requires
        pass_inv(g, start, table, begun, trail, k, i, j),
        0 <= i < g.vertices().len(),
        j >= g.edges_of(i).len(),
    ensures
        pass_inv(g, start, table, begun, trail, k, i + 1, 0),
{
    reveal(pass_inv);
}

/// Leaving the table as it is, where relaxing an edge offers nothing,
/// keeps the round in order.
proof fn lemma_pass_skip(
    g: Graph,
    start: u32,
    table: Map<u32, VertAttributes<u32>>,
    begun: Map<u32, VertAttributes<u32>>,
    trail: Trail,
    k: nat,
    i: int,
    j: int,
)
    requires
        g.wf(),
        pass_inv(g, start, table, begun, trail, k, i, j),
        0 <= i < g.vertices().len(),
        0 <= j < g.edges_of(i).len(),
        relaxed(table, g.edges_of(i)[j]) is None,
    ensures
        pass_inv(g, start, table, begun, trail, k, i, j + 1),
{
    reveal(pass_inv);
    let e = g.edges_of(i)[j];
    lemma_edge_at(g, i, j);
    assert(pass_relaxed(table, begun, e)) by {
        assert(begun.contains_key(e.from));
        assert(table[e.from].distance.rank() <= begun[e.from].distance.rank());
    }
}

/// Putting the record that relaxing an edge offers into the table keeps
/// the round in order.
proof fn lemma_pass_update(
    g: Graph,
    start: u32,
    table: Map<u32, VertAttributes<u32>>,
    begun: Map<u32, VertAttributes<u32>>,
    trail: Trail,
    k: nat,
    i: int,
    j: int,
    new: VertAttributes<u32>,
)
    requires
        g.wf(),
        pass_inv(g, start, table, begun, trail, k, i, j),
        0 <= i < g.vertices().len(),
        0 <= j < g.edges_of(i).len(),
        relaxed(table, g.edges_of(i)[j]) == Some(new),
    ensures
        pass_inv(
            g,
            start,
            table.insert(g.edges_of(i)[j].to, new),
            begun,
            Trail {
                wit: trail.wit.insert(
                    g.edges_of(i)[j].to,
                    trail.wit[g.edges_of(i)[j].from].push(g.edges_of(i)[j]),
                ),
                via: trail.via.insert(g.edges_of(i)[j].to, g.edges_of(i)[j]),
                stamp: trail.stamp.insert(g.edges_of(i)[j].to, trail.clock),
                clock: trail.clock + 1,
            },
            k,
            i,
            j + 1,
        ),
{
    reveal(pass_inv);
    let e = g.edges_of(i)[j];
    let u = e.from;
    let v = e.to;
    lemma_edge_at(g, i, j);
    let t2 = table.insert(v, new);
    let wit2 = trail.wit.insert(v, trail.wit[u].push(e));
    let via2 = trail.via.insert(v, e);
    let stamp2 = trail.stamp.insert(v, trail.clock);
    assert(table.contains_key(u) && table.contains_key(v));
    assert(table[u].distance is Dist);
    assert(new.distance is Dist);
    assert(v != start);
    assert(v != u);
    lemma_path_extend(g, trail.wit[u], start, e);
    assert(covers(g, t2));
    assert(rooted(g, start, t2, via2)) by {
        assert forall|w: u32|
            t2.contains_key(w) && (#[trigger] t2[w]).predecessor is Some implies linked(
            g,
            t2,
            via2,
            w,
        ) by {
            if w != v {
                assert(t2[w] == table[w]);
                assert(table[w].predecessor is Some);
                assert(linked(g, table, trail.via, w));
            }
        }
        assert forall|w: u32| t2.contains_key(w) implies ((#[trigger] t2[w]).predecessor is Some
            <==> (t2[w].distance is Dist && w != start)) by {
            if w != v {
                assert(t2[w] == table[w]);
            }
        }
    }
    assert(witnessed(g, start, t2, wit2)) by {
        assert forall|w: u32|
            t2.contains_key(w) && (#[trigger] t2[w]).distance is Dist implies is_path(
            g,
            wit2[w],
            start,
            w,
        ) && path_weight(wit2[w]) == t2[w].distance.rank() by {
            if w != v {
                assert(t2[w] == table[w]);
            }
        }
    }
    assert(stamped(t2, via2, stamp2, trail.clock + 1)) by {
        assert forall|w: u32| t2.contains_key(w) implies #[trigger] stamp2[w] < trail.clock
            + 1 by {
            if w != v {
                assert(trail.stamp[w] < trail.clock);
            }
        }
        assert forall|w: u32|
            t2.contains_key(w) && (#[trigger] t2[w]).predecessor is Some
                && t2[t2[w].predecessor.unwrap()].distance.rank() + via2[w].cost()
                == t2[w].distance.rank() implies stamp2[t2[w].predecessor.unwrap()]
            < stamp2[w] by {
            if w != v {
                assert(t2[w] == table[w]);
                assert(table[w].predecessor is Some);
                assert(linked(g, table, trail.via, w));
                let x = table[w].predecessor.unwrap();
                if x != v {
                    assert(trail.stamp[x] < trail.stamp[w]);
                }
            } else {
                assert(trail.stamp[u] < trail.clock);
            }
        }
    }
    assert(no_further(t2, begun)) by {
        assert forall|w: u32| begun.contains_key(w) implies t2[w].distance.rank() <= (
        #[trigger] begun[w]).distance.rank() by {
            assert(table[w].distance.rank() <= begun[w].distance.rank());
        }
    }
    assert(processed(g, t2, begun, i, j + 1)) by {
        assert forall|a: int, b: int|
            0 <= a < g.vertices().len() && 0 <= b < g.edges_of(a).len() && (a < i || (a == i
                && b < j + 1)) implies pass_relaxed(t2, begun, #[trigger] g.edges_of(a)[b]) by {
            lemma_edge_at(g, a, b);
            if a == i && b == j {
                assert(begun.contains_key(u));
                assert(table[u].distance.rank() <= begun[u].distance.rank());
            } else {
                assert(pass_relaxed(table, begun, g.edges_of(a)[b]));
            }
        }
    }
}

/// When every edge is dealt with, one more round is done.
proof fn lemma_pass_end(
    g: Graph,
    start: u32,
    table: Map<u32, VertAttributes<u32>>,
    begun: Map<u32, VertAttributes<u32>>,
    trail: Trail,
    k: nat,
)
    requires
        g.wf(),
        pass_inv(g, start, table, begun, trail, k, g.vertices().len() as int, 0),
    ensures
        rounds_inv(g, start, table, trail, k + 1),
{
    reveal(pass_inv);
    reveal(rounds_inv);
    assert forall|v: u32, p: Seq<Edge>|
        table.contains_key(v) && #[trigger] is_path(g, p, start, v) && p.len() <= k + 1
            && path_weight(p) <= u32::MAX implies table[v].distance.rank() <= path_weight(p) by {
        if p.len() == 0 {
            assert(v == start);
        } else {
            let e = p.last();
            let q = p.drop_last();
            lemma_path_prefix(g, p, start, v);
            lemma_edge_ends(g, e);
            assert(is_path(g, q, start, e.from));
            assert(begun.contains_key(e.from));
            assert(begun[e.from].distance.rank() <= path_weight(q));
            let a = g.vertices().index_of(e.from);
            let b = choose|b: int| 0 <= b < g.out(e.from).len() && g.out(e.from)[b] == e;
            assert(pass_relaxed(table, begun, g.edges_of(a)[b]));
        }
    }
}

/// After as many rounds as the graph has vertices the table is finished.
proof fn lemma_rounds_end(
    g: Graph,
    start: u32,
    table: Map<u32, VertAttributes<u32>>,
    trail: Trail,
    k: nat,
)
    requires
        g.wf(),
        rounds_inv(g, start, table, trail, k),
        k >= g.vertices().len(),
    ensures
        settled(g, start, table, trail.via, trail.stamp),
{
    reveal(rounds_inv);
    assert(optimal(g, start, table)) by {
        assert forall|v: u32, p: Seq<Edge>|
            table.contains_key(v) && #[trigger] is_path(g, p, start, v) && path_weight(p)
                <= u32::MAX implies table[v].distance.rank() <= path_weight(p) by {
            let q = lemma_shorten(g, p, start, v);
            assert(is_path(g, q, start, v));
        }
    }
    assert forall|v: u32|
        table.contains_key(v) && (#[trigger] table[v]).predecessor is Some implies tight(
        table,
        trail.via,
        trail.stamp,
        v,
    ) by {
        assert(linked(g, table, trail.via, v));
        let u = table[v].predecessor.unwrap();
        let e = trail.via[v];
        lemma_path_extend(g, trail.wit[u], start, e);
        assert(is_path(g, trail.wit[u].push(e), start, v));
    }
}

/// Relaxes every edge of the graph once, vertex by vertex in the graph's
/// order.
fn relax_every_edge(
    graph: &Graph,
    attributes: &mut HashMap<u32, VertAttributes<u32>>,
    Ghost(start): Ghost<u32>,
    Ghost(trail): Ghost<Trail>,
    Ghost(rounds): Ghost<nat>,
) -> (next: Ghost<Trail>)
    requires
        graph.wf(),
        rounds_inv(*graph, start, old(attributes)@, trail, rounds),
    ensures
        rounds_inv(*graph, start, final(attributes)@, next@, rounds + 1),
        final(attributes)@ == relax_along(old(attributes)@, all_edges(*graph)),
{
    let ghost begun = attributes@;
    let ghost mut trail = trail;
    let n = graph.vertex_count();
    let mut i: usize = 0;
    proof {
        lemma_pass_begin(*graph, start, begun, trail, rounds);
    }
    while i < n
        invariant
            graph.wf(),
            n == graph.vertices().len(),
            i <= n,
            pass_inv(*graph, start, attributes@, begun, trail, rounds, i as int, 0),
            attributes@ == relax_along(begun, edges_upto(*graph, i as nat)),
        decreases n - i,
    {
        let edges = graph.edges_at(i);
        let m = edges.len();
        let mut j: usize = 0;
        proof {
            assert(edges_upto(*graph, i as nat) + edges@.subrange(0, 0) =~= edges_upto(
                *graph,
                i as nat,
            ));
        }
        while j < m
            invariant
                graph.wf(),
                n == graph.vertices().len(),
                i < n,
                edges@ == graph.edges_of(i as int),
                m == edges@.len(),
                j <= m,
                pass_inv(*graph, start, attributes@, begun, trail, rounds, i as int, j as int),
                attributes@ == relax_along(
                    begun,
                    edges_upto(*graph, i as nat) + edges@.subrange(0, j as int),
                ),
            decreases m - j,
        {
            let edge = edges.get(j);
            proof {
                let before = edges_upto(*graph, i as nat) + edges@.subrange(0, j as int);
                let after = edges_upto(*graph, i as nat) + edges@.subrange(0, j + 1);
                assert(after.drop_last() =~= before);
                assert(after.last() == edge);
                lemma_edge_at(*graph, i as int, j as int);
                lemma_edge_ends(*graph, edge);
                lemma_pass_parts(*graph, start, attributes@, begun, trail, rounds, i as int, j as int);
            }
            if let Some(new_attribute) = relax(attributes, &edge) {
                proof {
                    lemma_pass_update(
                        *graph,
                        start,
                        attributes@,
                        begun,
                        trail,
                        rounds,
                        i as int,
                        j as int,
                        new_attribute,
                    );
                    trail = Trail {
                        wit: trail.wit.insert(edge.to, trail.wit[edge.from].push(edge)),
                        via: trail.via.insert(edge.to, edge),
                        stamp: trail.stamp.insert(edge.to, trail.clock),
                        clock: trail.clock + 1,
                    };
                }
                attributes.insert(edge.to, new_attribute);
            } else {
                proof {
                    lemma_pass_skip(
                        *graph,
                        start,
                        attributes@,
                        begun,
                        trail,
                        rounds,
                        i as int,
                        j as int,
                    );
                }
            }
            j += 1;
        }
        proof {
            lemma_pass_next_vertex(
                *graph,
                start,
                attributes@,
                begun,
                trail,
                rounds,
                i as int,
                j as int,
            );
            assert(edges@.subrange(0, m as int) =~= edges@);
            assert(edges_upto(*graph, (i + 1) as nat) == edges_upto(*graph, i as nat)
                + graph.edges_of(i as int));
        }
        i += 1;
    }
    proof {
        lemma_pass_end(*graph, start, attributes@, begun, trail, rounds);
    }
    Ghost(trail)
}

/// What the Bellman-Ford search answers, exactly: nothing where `start` is
/// no vertex of the graph, and else what walking back from `end` gives in
/// the table after as many rounds as the graph has vertices.
pub open spec fn bellman_ford_answer(g: Graph, start: u32, end: u32, r: Option<Edges>) -> bool {
    if g.vertices().contains(start) {
        walked_back(
            predecessors_of(bellman_ford_table(g, start, g.vertices().len())),
            start,
            end,
            r,
        )
    } else {
        r is None
    }
}

/// Searching twice with Bellman-Ford gives the same answer.
pub proof fn lemma_bellman_ford_repeatable(
    g: Graph,
    start: u32,
    end: u32,
    a: Option<Edges>,
    b: Option<Edges>,
)
    requires
        bellman_ford_answer(g, start, end, a),
        bellman_ford_answer(g, start, end, b),
    ensures
        a is Some <==> b is Some,
        a is Some ==> a.unwrap()@ == b.unwrap()@,
{
    if g.vertices().contains(start) {
        lemma_walked_back_once(
            predecessors_of(bellman_ford_table(g, start, g.vertices().len())),
            start,
            end,
            a,
            b,
        );
    }
}

/// Finds a lightest walk from `start` to `end` with the Bellman-Ford
/// algorithm.
///
/// Every edge of the graph is relaxed as many times as the graph has
/// vertices; the answer is then read off the predecessor links.
pub fn shortest_path_bellman_ford(graph: &Graph, start: u32, end: u32) -> (r: Option<Edges>)
    requires
        graph.wf(),
    ensures
        shortest_path_result(*graph, start, end, r),
        bellman_ford_answer(*graph, start, end, r),
{
    if graph.position(start).is_none() {
        proof {
            lemma_no_way_from_outside(*graph, start, end);
        }
        return None;
    }
    let mut attributes = initialize_single_source(graph, start);
    let ghost mut trail = Trail {
        wit: Map::total(|v: u32| Seq::<Edge>::empty()),
        via: Map::total(|v: u32| Edge { value: None, from: 0, to: 0 }),
        stamp: Map::total(|v: u32| 0nat),
        clock: 1,
    };
    proof {
        lemma_rounds_start(*graph, start);
    }
    let n = graph.vertex_count();
    let mut round: usize = 0;
    while round < n
        invariant
            graph.wf(),
            n == graph.vertices().len(),
            round <= n,
            rounds_inv(*graph, start, attributes@, trail, round as nat),
            attributes@ == bellman_ford_table(*graph, start, round as nat),
        decreases n - round,
    {
        let next = relax_every_edge(
            graph,
            &mut attributes,
            Ghost(start),
            Ghost(trail),
            Ghost(round as nat),
        );
        proof {
            trail = next@;
        }
        round += 1;
    }
    proof {
        lemma_rounds_end(*graph, start, attributes@, trail, round as nat);
        reveal(rounds_inv);
    }
    let predecessors = attributes_to_predecessors(graph, &attributes);
    let r = recreate_path(start, end, &predecessors);
    proof {
        lemma_answer(*graph, start, end, attributes@, trail.via, trail.stamp, r);
    }
    r
}

/// Dijkstra's and Bellman-Ford's answers agree: one finds a way exactly when
/// the other does, and the lightest walks behind the two answers weigh the
/// same.
pub proof fn lemma_dijkstra_agrees_with_bellman_ford(
    g: Graph,
    start: u32,
    end: u32,
    dijkstra: Option<Edges>,
    bellman_ford: Option<Edges>,
)
    requires
        g.wf(),
        shortest_path_result(g, start, end, dijkstra),
        shortest_path_result(g, start, end, bellman_ford),
    ensures
        dijkstra is Some <==> bellman_ford is Some,
        forall|p: Seq<Edge>, q: Seq<Edge>|
            dijkstra is Some && bellman_ford is Some && is_shortest_path(g, p, start, end)
                && dijkstra.unwrap()@ == unweighted_path(p) && is_shortest_path(g, q, start, end)
                && bellman_ford.unwrap()@ == unweighted_path(q) ==> path_weight(p) == path_weight(
                q,
            ),
        dijkstra is Some ==> dijkstra.unwrap()@.len() > 0,
{
    if dijkstra is Some {
        let p = choose|p: Seq<Edge>|
            is_shortest_path(g, p, start, end) && path_weight(p) <= u32::MAX && dijkstra.unwrap()@
                == unweighted_path(p);
        if bellman_ford is None {
            assert(is_path(g, p, start, end));
        }
        if p.len() == 0 {
        }
    }
    if bellman_ford is Some {
        let q = choose|q: Seq<Edge>|
            is_shortest_path(g, q, start, end) && path_weight(q) <= u32::MAX
                && bellman_ford.unwrap()@ == unweighted_path(q);
        if dijkstra is None {
            assert(is_path(g, q, start, end));
        }
    }
}

} // verus!
