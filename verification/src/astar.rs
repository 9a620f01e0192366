//! A* pathfinding on a terrain map.

use crate::distance::Distance;
use crate::edge::{Edge, Edges};
use crate::graph::Graph;
use crate::heap::{holds, risen, slot, sunk, PositionTrackingMinHeap, VertAttributes, VertexId};
use crate::paths::{is_path, lemma_path_extend, lemma_path_prefix, path_weight};
use crate::shortest_path::{
    ancestor, chain, hits_at, holds_at_most, is_shortest_path, lemma_ancestor_shift,
    lemma_ancestor_stuck, lemma_distinct_keys_bounded, lemma_hits_once, lemma_never_met,
    shortest_path_result, unweighted_path,
};
use crate::terrain::{height_gap, MapSlice, Point2d, TerrainMap};
use std::collections::HashMap;
use vstd::prelude::*;
use vstd::std_specs::hash::group_hash_axioms;

verus! {

broadcast use group_hash_axioms;

/// The two cells share a side.
pub open spec fn adjacent(a: Point2d, b: Point2d) -> bool {
    ||| (a.0 == b.0 && (a.1 + 1 == b.1 || b.1 + 1 == a.1))
    ||| (a.1 == b.1 && (a.0 + 1 == b.0 || b.0 + 1 == a.0))
}

/// What a step between two cells costs: one more than the difference of
/// their heights.
pub open spec fn step_cost(t: TerrainMap, a: Point2d, b: Point2d) -> nat {
    1 + height_gap(t.height_at(a), t.height_at(b))
}

/// `w` is a walk over the map from `s` to `e`: a sequence of cells that can
/// be walked on, each sharing a side with the next.
pub open spec fn is_walk(t: TerrainMap, w: Seq<Point2d>, s: Point2d, e: Point2d) -> bool {
    &&& w.len() >= 1
    &&& w[0] == s
    &&& w.last() == e
    &&& forall|i: int| 0 <= i < w.len() ==> t.passable(#[trigger] w[i])
    &&& forall|i: int| 0 <= i < w.len() - 1 ==> adjacent(#[trigger] w[i], w[i + 1])
}

/// The total cost of the steps of `w`.
pub open spec fn walk_cost(t: TerrainMap, w: Seq<Point2d>) -> nat
    decreases w.len(),
{
    if w.len() <= 1 {
        0
    } else {
        walk_cost(t, w.drop_last()) + step_cost(t, w[w.len() - 2], w.last())
    }
}

/// A table keyed by cell keys, read as a table keyed by cells.
pub open spec fn by_point<V>(m: Map<u64, V>) -> Map<Point2d, V> {
    Map::new(|p: Point2d| m.contains_key(p.key_of()), |p: Point2d| m[p.key_of()])
}

/// Writing under a cell's key is writing under the cell.
pub proof fn lemma_by_point_insert<V>(m: Map<u64, V>, q: Point2d, v: V)
    ensures
        by_point(m.insert(q.key_of(), v)) == by_point(m).insert(q, v),
{
    assert forall|p: Point2d| p.key_of() == q.key_of() implies p == q by {
        Point2d::lemma_key_injective(p, q);
    }
    assert(by_point(m.insert(q.key_of(), v)) =~= by_point(m).insert(q, v));
}

/// The predecessor links that a table of records holds.
pub open spec fn links(a: Map<Point2d, VertAttributes<Point2d>>) -> Map<Point2d, Point2d> {
    Map::new(
        |p: Point2d| a.contains_key(p) && a[p].predecessor is Some,
        |p: Point2d| a[p].predecessor.unwrap(),
    )
}

/// A walk that goes on by one step to a cell beside its end.
pub proof fn lemma_walk_extend(t: TerrainMap, w: Seq<Point2d>, s: Point2d, nb: Point2d)
    requires
        is_walk(t, w, s, w.last()),
        t.passable(nb),
        adjacent(w.last(), nb),
    ensures
        is_walk(t, w.push(nb), s, nb),
        walk_cost(t, w.push(nb)) == walk_cost(t, w) + step_cost(t, w.last(), nb),
{
    let q = w.push(nb);
    assert forall|i: int| 0 <= i < q.len() implies t.passable(#[trigger] q[i]) by {
        if i < w.len() {
            assert(q[i] == w[i]);
        }
    }
    assert forall|i: int| 0 <= i < q.len() - 1 implies adjacent(#[trigger] q[i], q[i + 1]) by {
        assert(q[i] == w[i]);
        if i + 1 < w.len() {
            assert(q[i + 1] == w[i + 1]);
        }
    }
    assert(q[0] == w[0]);
    assert(q.drop_last() =~= w);
    assert(q[q.len() - 2] == w.last());
}

/// A walk of more than one cell without its last cell is a walk to the cell
/// before.
pub proof fn lemma_walk_prefix(t: TerrainMap, w: Seq<Point2d>, s: Point2d, e: Point2d)
    requires
        is_walk(t, w, s, e),
        w.len() >= 2,
    ensures
        is_walk(t, w.drop_last(), s, w[w.len() - 2]),
        adjacent(w[w.len() - 2], e),
        t.passable(w[w.len() - 2]),
        t.passable(e),
        walk_cost(t, w) == walk_cost(t, w.drop_last()) + step_cost(t, w[w.len() - 2], e),
{
    let q = w.drop_last();
    assert forall|i: int| 0 <= i < q.len() implies t.passable(#[trigger] q[i]) by {
        assert(q[i] == w[i]);
    }
    assert forall|i: int| 0 <= i < q.len() - 1 implies adjacent(#[trigger] q[i], q[i + 1]) by {
        assert(q[i] == w[i]);
        assert(q[i + 1] == w[i + 1]);
    }
    assert(q[0] == w[0]);
    assert(adjacent(w[w.len() - 2], w[w.len() - 2 + 1]));
    assert(t.passable(w[w.len() - 1]));
    assert(t.passable(w[w.len() - 2]));
}

/// The cells listed as neighbours of `a` are the cells beside `a` that can
/// be walked on.
pub proof fn lemma_neighbors(t: TerrainMap, a: Point2d, b: Point2d)
    requires
        t.wf(),
    ensures
        t.spec_neighbors(a).contains(b) <==> (t.passable(b) && adjacent(a, b)),
{
    t.lemma_size();
    let s1 = t.beside(a, -1, 0);
    let s2 = t.beside(a, 1, 0);
    let s3 = t.beside(a, 0, -1);
    let s4 = t.beside(a, 0, 1);
    let all = t.spec_neighbors(a);
    assert(all == s1 + s2 + s3 + s4);
    if all.contains(b) {
        let j = choose|j: int| 0 <= j < all.len() && all[j] == b;
        if j < s1.len() {
            assert(all[j] == s1[j]);
        } else if j < s1.len() + s2.len() {
            assert(all[j] == s2[j - s1.len()]);
        } else if j < s1.len() + s2.len() + s3.len() {
            assert(all[j] == s3[j - s1.len() - s2.len()]);
        } else {
            assert(all[j] == s4[j - s1.len() - s2.len() - s3.len()]);
        }
    }
    if t.passable(b) && adjacent(a, b) {
        if a.1 == b.1 && b.0 + 1 == a.0 {
            assert(s1[0] == b);
            assert(all[0] == b);
        } else if a.1 == b.1 && a.0 + 1 == b.0 {
            assert(s2[0] == b);
            assert(all[s1.len() as int] == b);
        } else if a.0 == b.0 && b.1 + 1 == a.1 {
            assert(s3[0] == b);
            assert(all[(s1.len() + s2.len()) as int] == b);
        } else {
            assert(s4[0] == b);
            assert(all[(s1.len() + s2.len() + s3.len()) as int] == b);
        }
    }
}

/// A copy of the cells in the opposite order.
fn reversed(v: &Vec<Point2d>) -> (r: Vec<Point2d>)
    ensures
        r@ == v@.reverse(),
{
    let mut out: Vec<Point2d> = Vec::new();
    let n = v.len();
    let mut i: usize = 0;
    while i < n
        invariant
            n == v@.len(),
            i <= n,
            out@.len() == i,
            forall|j: int| 0 <= j < i ==> out@[j] == v@[n - 1 - j],
        decreases n - i,
    {
        out.push(v[n - 1 - i]);
        i += 1;
    }
    assert(out@ =~= v@.reverse());
    out
}

/// `r` is what walking back from `end` along the predecessor links of the
/// records gives: the cells passed until `start` was met, from `start` to
/// `end`; or nothing, where `start` is never met.
pub open spec fn retraced(
    attributes: Map<u64, VertAttributes<Point2d>>,
    start: Point2d,
    end: Point2d,
    r: Option<Vec<Point2d>>,
) -> bool {
    match r {
        Some(path) => exists|k: nat|
            hits_at(links(by_point(attributes)), start, end, k) && path@ == chain(
                links(by_point(attributes)),
                end,
                k + 1,
            ).reverse(),
        None => forall|k: nat|
            1 <= k ==> ancestor(links(by_point(attributes)), end, k) != Some(start),
    }
}

/// The records hold predecessor links for no more distinct cells than there
/// are records.
pub proof fn lemma_records_hold_at_most(attributes: Map<u64, VertAttributes<Point2d>>)
    requires
        attributes.dom().finite(),
    ensures
        holds_at_most(links(by_point(attributes)), attributes.len()),
{
    let preds = links(by_point(attributes));
    assert forall|s: Seq<Point2d>|
        #[trigger] s.no_duplicates() && (forall|i: int|
            0 <= i < s.len() ==> preds.contains_key(#[trigger] s[i])) implies s.len()
        <= attributes.len() by {
        let keys = Seq::new(s.len(), |i: int| s[i].key_of());
        assert(keys.no_duplicates()) by {
            assert forall|i: int, j: int| 0 <= i < keys.len() && 0 <= j < keys.len() && i
                != j implies keys[i] != keys[j] by {
                if s[i].key_of() == s[j].key_of() {
                    Point2d::lemma_key_injective(s[i], s[j]);
                }
            }
        }
        assert forall|i: int| 0 <= i < keys.len() implies attributes.contains_key(
            #[trigger] keys[i],
        ) by {
            assert(preds.contains_key(s[i]));
        }
        lemma_distinct_keys_bounded(attributes, keys);
    }
}

/// Walking back through the same records gives the same result.
pub proof fn lemma_retraced_once(
    attributes: Map<u64, VertAttributes<Point2d>>,
    start: Point2d,
    end: Point2d,
    a: Option<Vec<Point2d>>,
    b: Option<Vec<Point2d>>,
)
    requires
        retraced(attributes, start, end, a),
        retraced(attributes, start, end, b),
    ensures
        a is Some <==> b is Some,
        a is Some ==> a.unwrap()@ == b.unwrap()@,
{
    let preds = links(by_point(attributes));
    if a is Some && b is Some {
        let ka = choose|k: nat|
            hits_at(preds, start, end, k) && a.unwrap()@ == chain(
                preds,
                end,
                k + 1,
            ).reverse();
        let kb = choose|k: nat|
            hits_at(preds, start, end, k) && b.unwrap()@ == chain(
                preds,
                end,
                k + 1,
            ).reverse();
        lemma_hits_once(preds, start, end, ka, kb);
    } else if a is Some {
        let ka = choose|k: nat|
            hits_at(preds, start, end, k) && a.unwrap()@ == chain(
                preds,
                end,
                k + 1,
            ).reverse();
    } else if b is Some {
        let kb = choose|k: nat|
            hits_at(preds, start, end, k) && b.unwrap()@ == chain(
                preds,
                end,
                k + 1,
            ).reverse();
    }
}

/// Walks back from `end` along the predecessor links of the records and
/// returns the cells passed, from `start` to `end`, if `start` is met.
///
/// At most as many links are followed as there are records: a longer walk
/// would go in a circle.
pub fn a_star_recreate_path(
    attributes: &HashMap<u64, VertAttributes<Point2d>>,
    start: &Point2d,
    end: &Point2d,
) -> (r: Option<Vec<Point2d>>)
    ensures
        retraced(attributes@, *start, *end, r),
{
    let ghost preds = links(by_point(attributes@));
    let mut result: Vec<Point2d> = Vec::new();
    let mut found_start = false;
    let mut going = true;
    result.push(*end);
    let total = attributes.len();
    let mut steps: usize = 0;
    let mut curr = *end;
    while going && steps < total
        invariant
            preds == links(by_point(attributes@)),
            total == attributes@.len(),
            steps <= total,
            ancestor(preds, *end, steps as nat) == Some(curr),
            result@.len() == steps + 1,
            forall|j: int|
                0 <= j <= steps ==> ancestor(preds, *end, j as nat) == Some(#[trigger] result@[j]),
            found_start ==> !going && hits_at(preds, *start, *end, steps as nat),
            !found_start ==> forall|j: nat|
                1 <= j <= steps ==> ancestor(preds, *end, j) != Some(*start),
            !going && !found_start ==> ancestor(preds, *end, (steps + 1) as nat) is None,
        decreases (if going { 1nat } else { 0nat }) + total - steps,
    {
        let next = match attributes.get(&curr.key()) {
            None => None,
            Some(attr) => attr.predecessor,
        };
        match next {
            None => {
                going = false;
            },
            Some(pred) => {
                result.push(pred);
                curr = pred;
                steps += 1;
                if pred == *start {
                    found_start = true;
                    going = false;
                }
            },
        }
    }
    if found_start {
        let path = reversed(&result);
        proof {
            assert(result@ =~= chain(preds, *end, (steps + 1) as nat));
        }
        Some(path)
    } else {
        proof {
            assert forall|k: nat| 1 <= k <= attributes@.len() implies ancestor(preds, *end, k)
                != Some(*start) by {
                if k > steps {
                    lemma_ancestor_stuck(preds, *end, (steps + 1) as nat, k);
                }
            }
            lemma_records_hold_at_most(attributes@);
            assert forall|k: nat| 1 <= k implies ancestor(preds, *end, k) != Some(*start) by {
                lemma_never_met(preds, *start, *end, attributes@.len(), k);
            }
        }
        None
    }
}

/// The estimates never fall by more than a step costs, and the estimate at
/// `end` is zero.
pub open spec fn consistent(t: TerrainMap, end: Point2d, h: Map<Point2d, Distance>) -> bool {
    &&& h[end] == Distance::Dist(0)
    &&& forall|a: Point2d, b: Point2d|
        t.passable(a) && t.passable(b) && #[trigger] adjacent(a, b) ==> h[a].rank() <= step_cost(
            t,
            a,
            b,
        ) + h[b].rank()
}

/// What the search answers, given the estimates `h` of the remaining cost.
///
/// An answer is a walk from `start` to `end`, which differ. Where the
/// estimates are consistent, the answer is a cheapest walk, and there is an
/// answer whenever the two cells differ and some walk costs no more than a
/// finite distance can hold.
pub open spec fn a_star_result(
    t: TerrainMap,
    start: Point2d,
    end: Point2d,
    h: Map<Point2d, Distance>,
    r: Option<Vec<Point2d>>,
) -> bool {
    &&& (r matches Some(path) ==> start != end && is_walk(t, path@, start, end))
    &&& consistent(t, end, h) ==> match r {
        Some(path) => walk_cost(t, path@) <= u32::MAX && forall|w: Seq<Point2d>|
            is_walk(t, w, start, end) ==> walk_cost(t, path@) <= walk_cost(t, w),
        None => start == end || forall|w: Seq<Point2d>|
            is_walk(t, w, start, end) ==> walk_cost(t, w) > u32::MAX,
    }
}

/// The table has an entry for every cell of the map and for nothing else.
pub open spec fn covered<V>(t: TerrainMap, m: Map<Point2d, V>) -> bool {
    forall|p: Point2d| m.contains_key(p) <==> t.in_bounds(p)
}

/// The record of `p` is explained by its predecessor: a cell beside `p` that
/// has left the heap before `p`, at a cost that is exactly one step less.
pub open spec fn stepped(
    t: TerrainMap,
    g: Map<Point2d, Distance>,
    a: Map<Point2d, VertAttributes<Point2d>>,
    f: Map<Point2d, VertAttributes<Point2d>>,
    order: Map<Point2d, nat>,
    count: nat,
    p: Point2d,
) -> bool {
    let u = a[p].predecessor.unwrap();
    &&& t.in_bounds(u)
    &&& !f.contains_key(u)
    &&& t.passable(u)
    &&& t.passable(p)
    &&& adjacent(u, p)
    &&& g[u] is Dist
    &&& g[u].rank() + step_cost(t, u, p) == g[p].rank()
    &&& order[u] < count
    &&& (!f.contains_key(p) ==> order[u] < order[p])
}

/// What holds of the search between two steps, whatever the estimates.
#[verifier::opaque]
pub open spec fn sound_inv(
    t: TerrainMap,
    start: Point2d,
    g: Map<Point2d, Distance>,
    a: Map<Point2d, VertAttributes<Point2d>>,
    h: Map<Point2d, Distance>,
    f: Map<Point2d, VertAttributes<Point2d>>,
    wit: Map<Point2d, Seq<Point2d>>,
    order: Map<Point2d, nat>,
    count: nat,
) -> bool {
    &&& covered(t, g)
    &&& covered(t, a)
    &&& forall|p: Point2d| t.in_bounds(p) ==> h.contains_key(p)
    &&& forall|p: Point2d| #[trigger]
        f.contains_key(p) ==> t.in_bounds(p) && f[p].id == p && f[p].distance == g[p].spec_plus(
            h[p],
        )
    &&& t.passable(start)
    &&& g[start] == Distance::Dist(0)
    &&& a[start].predecessor is None
    &&& forall|p: Point2d|
        t.in_bounds(p) && (#[trigger] g[p]) is Dist ==> is_walk(t, wit[p], start, p) && walk_cost(
            t,
            wit[p],
        ) == g[p].rank()
    &&& forall|p: Point2d|
        t.in_bounds(p) ==> ((#[trigger] a[p]).predecessor is Some <==> (g[p] is Dist && p
            != start))
    &&& forall|p: Point2d|
        t.in_bounds(p) && (#[trigger] a[p]).predecessor is Some ==> stepped(
            t,
            g,
            a,
            f,
            order,
            count,
            p,
        )
    &&& forall|p: Point2d| t.in_bounds(p) && !f.contains_key(p) ==> #[trigger] order[p] < count
}

/// The cell `p` has left the heap.
pub open spec fn gone(t: TerrainMap, f: Map<Point2d, VertAttributes<Point2d>>, p: Point2d) -> bool {
    t.in_bounds(p) && !f.contains_key(p)
}

/// The cell `nb` costs no more than `x` and the step between them, where a
/// finite distance can hold that sum and the estimate at `nb`.
pub open spec fn step_relaxed(
    t: TerrainMap,
    g: Map<Point2d, Distance>,
    h: Map<Point2d, Distance>,
    x: Point2d,
    nb: Point2d,
) -> bool {
    g[x] is Dist && g[x].rank() + step_cost(t, x, nb) + h[nb].rank() <= u32::MAX ==> g[nb].rank()
        <= g[x].rank() + step_cost(t, x, nb)
}

/// What holds of the search between two steps where the estimates are
/// consistent: the cells that have left the heap have their cheapest cost,
/// and the steps from them are relaxed; of the steps from `cur`, the first
/// `upto` only.
#[verifier::opaque]
pub open spec fn opt_inv(
    t: TerrainMap,
    start: Point2d,
    g: Map<Point2d, Distance>,
    h: Map<Point2d, Distance>,
    f: Map<Point2d, VertAttributes<Point2d>>,
    cur: Point2d,
    upto: int,
) -> bool {
    &&& forall|p: Point2d, w: Seq<Point2d>|
        gone(t, f, p) && #[trigger] is_walk(t, w, start, p) && walk_cost(t, w) + h[p].rank()
            <= u32::MAX ==> g[p].rank() <= walk_cost(t, w)
    &&& forall|x: Point2d, k: int|
        gone(t, f, x) && t.passable(x) && 0 <= k < t.spec_neighbors(x).len() && (x == cur ==> k
            < upto) ==> step_relaxed(t, g, h, x, #[trigger] t.spec_neighbors(x)[k])
}

/// What the steps of the search need to know of its state.
proof fn lemma_astar_parts(
    t: TerrainMap,
    start: Point2d,
    g: Map<Point2d, Distance>,
    a: Map<Point2d, VertAttributes<Point2d>>,
    h: Map<Point2d, Distance>,
    f: Map<Point2d, VertAttributes<Point2d>>,
    wit: Map<Point2d, Seq<Point2d>>,
    order: Map<Point2d, nat>,
    count: nat,
)
    requires
        sound_inv(t, start, g, a, h, f, wit, order, count),
    ensures
        covered(t, g),
        covered(t, a),
        forall|p: Point2d| t.in_bounds(p) ==> h.contains_key(p),
        forall|p: Point2d| #[trigger]
            f.contains_key(p) ==> t.in_bounds(p) && f[p].id == p && f[p].distance
                == g[p].spec_plus(h[p]),
{
    reveal(sound_inv);
}

/// Taking a cell out of the heap keeps the search in order.
proof fn lemma_astar_pop_sound(
    t: TerrainMap,
    start: Point2d,
    g: Map<Point2d, Distance>,
    a: Map<Point2d, VertAttributes<Point2d>>,
    h: Map<Point2d, Distance>,
    f: Map<Point2d, VertAttributes<Point2d>>,
    wit: Map<Point2d, Seq<Point2d>>,
    order: Map<Point2d, nat>,
    count: nat,
    u: Point2d,
)
    requires
        sound_inv(t, start, g, a, h, f, wit, order, count),
        f.contains_key(u),
    ensures
        sound_inv(t, start, g, a, h, f.remove(u), wit, order.insert(u, count), count + 1),
{
    reveal(sound_inv);
    let f2 = f.remove(u);
    let order2 = order.insert(u, count);
    assert forall|p: Point2d|
        t.in_bounds(p) && (#[trigger] a[p]).predecessor is Some implies stepped(
        t,
        g,
        a,
        f2,
        order2,
        count + 1,
        p,
    ) by {
        assert(stepped(t, g, a, f, order, count, p));
    }
    assert forall|p: Point2d| t.in_bounds(p) && !f2.contains_key(p) implies #[trigger] order2[p]
        < count + 1 by {
        if p != u {
            assert(order[p] < count);
        }
    }
}

/// A walk from `start` either passes a cell still in the heap whose cost and
/// estimate together are no more than the walk's cost and the estimate at
/// its end, or ends at a cell that has left the heap and costs no more than
/// the walk.
proof fn lemma_astar_frontier(
    t: TerrainMap,
    start: Point2d,
    end: Point2d,
    g: Map<Point2d, Distance>,
    a: Map<Point2d, VertAttributes<Point2d>>,
    h: Map<Point2d, Distance>,
    f: Map<Point2d, VertAttributes<Point2d>>,
    wit: Map<Point2d, Seq<Point2d>>,
    order: Map<Point2d, nat>,
    count: nat,
    cur: Point2d,
    upto: int,
    w: Seq<Point2d>,
    v: Point2d,
)
    requires
        t.wf(),
        consistent(t, end, h),
        sound_inv(t, start, g, a, h, f, wit, order, count),
        opt_inv(t, start, g, h, f, cur, upto),
        upto >= t.spec_neighbors(cur).len() || f.contains_key(cur),
        is_walk(t, w, start, v),
        walk_cost(t, w) + h[v].rank() <= u32::MAX,
    ensures
        (exists|y: Point2d| #[trigger]
            f.contains_key(y) && g[y].rank() + h[y].rank() <= walk_cost(t, w) + h[v].rank()) || (
        gone(t, f, v) && g[v].rank() <= walk_cost(t, w)),
    decreases w.len(),
{
    reveal(sound_inv);
    reveal(opt_inv);
    if w.len() == 1 {
        assert(v == start);
        if f.contains_key(start) {
        }
    } else {
        let x = w[w.len() - 2];
        let q = w.drop_last();
        lemma_walk_prefix(t, w, start, v);
        assert(adjacent(x, v));
        assert(h[x].rank() <= step_cost(t, x, v) + h[v].rank());
        lemma_astar_frontier(t, start, end, g, a, h, f, wit, order, count, cur, upto, q, x);
        if exists|y: Point2d| #[trigger]
            f.contains_key(y) && g[y].rank() + h[y].rank() <= walk_cost(t, q) + h[x].rank() {
            let y = choose|y: Point2d| #[trigger]
                f.contains_key(y) && g[y].rank() + h[y].rank() <= walk_cost(t, q) + h[x].rank();
            assert(f.contains_key(y) && g[y].rank() + h[y].rank() <= walk_cost(t, w)
                + h[v].rank());
        } else {
            lemma_neighbors(t, x, v);
            let k = choose|k: int|
                0 <= k < t.spec_neighbors(x).len() && t.spec_neighbors(x)[k] == v;
            assert(step_relaxed(t, g, h, x, t.spec_neighbors(x)[k]));
            if f.contains_key(v) {
            }
        }
    }
}

/// With consistent estimates, the cell that leaves the heap has its cheapest
/// cost.
proof fn lemma_astar_pop_opt(
    t: TerrainMap,
    start: Point2d,
    end: Point2d,
    g: Map<Point2d, Distance>,
    a: Map<Point2d, VertAttributes<Point2d>>,
    h: Map<Point2d, Distance>,
    f: Map<Point2d, VertAttributes<Point2d>>,
    wit: Map<Point2d, Seq<Point2d>>,
    order: Map<Point2d, nat>,
    count: nat,
    cur: Point2d,
    upto: int,
    u: Point2d,
)
    requires
        t.wf(),
        consistent(t, end, h),
        sound_inv(t, start, g, a, h, f, wit, order, count),
        opt_inv(t, start, g, h, f, cur, upto),
        upto >= t.spec_neighbors(cur).len() || f.contains_key(cur),
        f.contains_key(u),
        forall|y: Point2d| #[trigger] f.contains_key(y) ==> f[u].distance.spec_le(f[y].distance),
    ensures
        opt_inv(t, start, g, h, f.remove(u), u, 0),
{
    let f2 = f.remove(u);
    assert forall|p: Point2d, w: Seq<Point2d>|
        gone(t, f2, p) && #[trigger] is_walk(t, w, start, p) && walk_cost(t, w) + h[p].rank()
            <= u32::MAX implies g[p].rank() <= walk_cost(t, w) by {
        if p == u {
            lemma_astar_frontier(t, start, end, g, a, h, f, wit, order, count, cur, upto, w, p);
            lemma_astar_parts(t, start, g, a, h, f, wit, order, count);
            let y = choose|y: Point2d| #[trigger]
                f.contains_key(y) && g[y].rank() + h[y].rank() <= walk_cost(t, w) + h[p].rank();
            assert(f[u].distance.spec_le(f[y].distance));
            assert(f[y].distance == g[y].spec_plus(h[y]));
            assert(f[u].distance == g[u].spec_plus(h[u]));
        } else {
            reveal(opt_inv);
            assert(gone(t, f, p));
        }
    }
    assert forall|x: Point2d, k: int|
        gone(t, f2, x) && t.passable(x) && 0 <= k < t.spec_neighbors(x).len() && (x == u ==> k
            < 0) implies step_relaxed(t, g, h, x, #[trigger] t.spec_neighbors(x)[k]) by {
        reveal(opt_inv);
        assert(gone(t, f, x));
    }
    assert(opt_inv(t, start, g, h, f2, u, 0)) by {
        reveal(opt_inv);
    }
}

/// Giving a neighbour in the heap a cheaper cost through the cell just
/// taken out keeps the search in order.
proof fn lemma_astar_update_sound(
    t: TerrainMap,
    start: Point2d,
    g: Map<Point2d, Distance>,
    a: Map<Point2d, VertAttributes<Point2d>>,
    h: Map<Point2d, Distance>,
    f: Map<Point2d, VertAttributes<Point2d>>,
    wit: Map<Point2d, Seq<Point2d>>,
    order: Map<Point2d, nat>,
    count: nat,
    u: Point2d,
    nb: Point2d,
    tentative: Distance,
)
    requires
        t.wf(),
        sound_inv(t, start, g, a, h, f, wit, order, count),
        gone(t, f, u),
        t.passable(u),
        t.passable(nb),
        adjacent(u, nb),
        f.contains_key(nb),
        g[u] is Dist,
        tentative is Dist,
        tentative.rank() == g[u].rank() + step_cost(t, u, nb),
        tentative.rank() < g[nb].rank(),
    ensures
        sound_inv(
            t,
            start,
            g.insert(nb, tentative),
            a.insert(
                nb,
                VertAttributes {
                    id: nb,
                    predecessor: Some(u),
                    distance: tentative.spec_plus(h[nb]),
                },
            ),
            h,
            f.insert(
                nb,
                VertAttributes {
                    id: nb,
                    predecessor: Some(u),
                    distance: tentative.spec_plus(h[nb]),
                },
            ),
            wit.insert(nb, wit[u].push(nb)),
            order,
            count,
        ),
{
    reveal(sound_inv);
    let rec = VertAttributes { id: nb, predecessor: Some(u), distance: tentative.spec_plus(h[nb]) };
    let g2 = g.insert(nb, tentative);
    let a2 = a.insert(nb, rec);
    let f2 = f.insert(nb, rec);
    let wit2 = wit.insert(nb, wit[u].push(nb));
    assert(nb != start);
    assert(nb != u);
    assert(is_walk(t, wit[u], start, u));
    lemma_walk_extend(t, wit[u], start, nb);
    assert forall|p: Point2d| #[trigger] f2.contains_key(p) implies t.in_bounds(p) && f2[p].id
        == p && f2[p].distance == g2[p].spec_plus(h[p]) by {
        if p != nb {
            assert(f.contains_key(p));
        }
    }
    assert forall|p: Point2d| t.in_bounds(p) && (#[trigger] g2[p]) is Dist implies is_walk(
        t,
        wit2[p],
        start,
        p,
    ) && walk_cost(t, wit2[p]) == g2[p].rank() by {
        if p != nb {
            assert(g2[p] == g[p]);
        }
    }
    assert forall|p: Point2d| t.in_bounds(p) implies ((#[trigger] a2[p]).predecessor is Some <==> (
    g2[p] is Dist && p != start)) by {
        if p != nb {
            assert(a2[p] == a[p]);
        }
    }
    assert forall|p: Point2d|
        t.in_bounds(p) && (#[trigger] a2[p]).predecessor is Some implies stepped(
        t,
        g2,
        a2,
        f2,
        order,
        count,
        p,
    ) by {
        if p != nb {
            assert(a2[p] == a[p]);
            assert(stepped(t, g, a, f, order, count, p));
        } else {
            assert(order[u] < count);
        }
    }
}

/// Giving a neighbour in the heap a cheaper cost leaves the step to it
/// relaxed and nothing else changed.
proof fn lemma_astar_update_opt(
    t: TerrainMap,
    start: Point2d,
    g: Map<Point2d, Distance>,
    h: Map<Point2d, Distance>,
    f: Map<Point2d, VertAttributes<Point2d>>,
    u: Point2d,
    k: int,
    tentative: Distance,
    rec: VertAttributes<Point2d>,
)
    requires
        opt_inv(t, start, g, h, f, u, k),
        gone(t, f, u),
        0 <= k < t.spec_neighbors(u).len(),
        f.contains_key(t.spec_neighbors(u)[k]),
        g[u] is Dist,
        tentative.rank() == g[u].rank() + step_cost(t, u, t.spec_neighbors(u)[k]),
        tentative.rank() < g[t.spec_neighbors(u)[k]].rank(),
    ensures
        opt_inv(
            t,
            start,
            g.insert(t.spec_neighbors(u)[k], tentative),
            h,
            f.insert(t.spec_neighbors(u)[k], rec),
            u,
            k + 1,
        ),
{
    reveal(opt_inv);
    let nb = t.spec_neighbors(u)[k];
    let g2 = g.insert(nb, tentative);
    let f2 = f.insert(nb, rec);
    assert forall|p: Point2d, w: Seq<Point2d>|
        gone(t, f2, p) && #[trigger] is_walk(t, w, start, p) && walk_cost(t, w) + h[p].rank()
            <= u32::MAX implies g2[p].rank() <= walk_cost(t, w) by {
        assert(gone(t, f, p));
    }
    assert forall|x: Point2d, j: int|
        gone(t, f2, x) && t.passable(x) && 0 <= j < t.spec_neighbors(x).len() && (x == u ==> j < k
            + 1) implies step_relaxed(t, g2, h, x, #[trigger] t.spec_neighbors(x)[j]) by {
        assert(gone(t, f, x));
        if x == u && j == k {
        } else {
            assert(step_relaxed(t, g, h, x, t.spec_neighbors(x)[j]));
        }
    }
}

/// The distance that `TerrainMap::distance` gives for a step.
pub open spec fn step_distance(t: TerrainMap, a: Point2d, b: Point2d) -> Distance {
    Distance::Dist(height_gap(t.height_at(a), t.height_at(b)) as u32).spec_plus(Distance::Dist(1))
}

/// Leaving a neighbour as it is, where the way through the cell just taken
/// out is no cheaper or the neighbour has left the heap, leaves the step to
/// it relaxed.
proof fn lemma_astar_skip_opt(
    t: TerrainMap,
    start: Point2d,
    g: Map<Point2d, Distance>,
    a: Map<Point2d, VertAttributes<Point2d>>,
    h: Map<Point2d, Distance>,
    f: Map<Point2d, VertAttributes<Point2d>>,
    wit: Map<Point2d, Seq<Point2d>>,
    order: Map<Point2d, nat>,
    count: nat,
    u: Point2d,
    k: int,
)
    requires
        t.wf(),
        sound_inv(t, start, g, a, h, f, wit, order, count),
        opt_inv(t, start, g, h, f, u, k),
        gone(t, f, u),
        0 <= k < t.spec_neighbors(u).len(),
        !t.passable(u) || !g[u].spec_plus(step_distance(t, u, t.spec_neighbors(u)[k])).spec_lt(
            g[t.spec_neighbors(u)[k]],
        ) || !f.contains_key(t.spec_neighbors(u)[k]),
    ensures
        opt_inv(t, start, g, h, f, u, k + 1),
{
    reveal(opt_inv);
    reveal(sound_inv);
    let nb = t.spec_neighbors(u)[k];
    assert(t.spec_neighbors(u).contains(nb));
    lemma_neighbors(t, u, nb);
    if t.passable(u) {
        assert(step_relaxed(t, g, h, u, nb)) by {
            if g[u] is Dist && g[u].rank() + step_cost(t, u, nb) + h[nb].rank() <= u32::MAX {
                let tentative = g[u].spec_plus(step_distance(t, u, nb));
                assert(tentative.rank() == g[u].rank() + step_cost(t, u, nb));
                if tentative.spec_lt(g[nb]) {
                    assert(gone(t, f, nb));
                    assert(is_walk(t, wit[u], start, u));
                    lemma_walk_extend(t, wit[u], start, nb);
                    assert(is_walk(t, wit[u].push(nb), start, nb));
                }
            }
        }
    }
    assert forall|x: Point2d, j: int|
        gone(t, f, x) && t.passable(x) && 0 <= j < t.spec_neighbors(x).len() && (x == u ==> j < k
            + 1) implies step_relaxed(t, g, h, x, #[trigger] t.spec_neighbors(x)[j]) by {
        if x == u && j == k {
        }
    }
}

/// The cells that the way back from `p` passes, `p` last.
pub open spec fn way(preds: Map<Point2d, Point2d>, p: Point2d, k: nat) -> Seq<Point2d> {
    chain(preds, p, k + 1).reverse()
}

/// The way back from a cell that has left the heap at a finite cost, other
/// than the start, meets the start; turned round it is a walk from the start
/// at that cost.
proof fn lemma_astar_way_back(
    t: TerrainMap,
    start: Point2d,
    g: Map<Point2d, Distance>,
    a: Map<Point2d, VertAttributes<Point2d>>,
    h: Map<Point2d, Distance>,
    f: Map<Point2d, VertAttributes<Point2d>>,
    wit: Map<Point2d, Seq<Point2d>>,
    order: Map<Point2d, nat>,
    count: nat,
    p: Point2d,
) -> (k: nat)
    requires
        t.wf(),
        sound_inv(t, start, g, a, h, f, wit, order, count),
        gone(t, f, p),
        g[p] is Dist,
        p != start,
    ensures
        hits_at(links(a), start, p, k),
        forall|m: nat| m <= k ==> (#[trigger] ancestor(links(a), p, m)) is Some,
        is_walk(t, way(links(a), p, k), start, p),
        walk_cost(t, way(links(a), p, k)) == g[p].rank(),
    decreases order[p],
{
    reveal(sound_inv);
    let preds = links(a);
    assert(a[p].predecessor is Some);
    assert(stepped(t, g, a, f, order, count, p));
    let u = a[p].predecessor.unwrap();
    assert(a.contains_key(p));
    assert(preds.contains_key(p) && preds[p] == u);
    lemma_ancestor_shift(preds, p, 0);
    assert(ancestor(preds, p, 0) == Some(p));
    assert(ancestor(preds, p, 1) == Some(u));
    if u == start {
        let k = 1nat;
        assert forall|m: nat| m <= k implies (#[trigger] ancestor(preds, p, m)) is Some by {
            if m == 1 {
            } else {
                assert(m == 0);
            }
        }
        let wy = way(preds, p, k);
        let one = seq![start];
        assert(is_walk(t, one, start, start));
        lemma_walk_extend(t, one, start, p);
        assert(wy =~= one.push(p)) by {
            assert(chain(preds, p, 2)[0] == p);
            assert(chain(preds, p, 2)[1] == start);
        }
        assert(walk_cost(t, one) == 0);
        k
    } else {
        let k0 = lemma_astar_way_back(t, start, g, a, h, f, wit, order, count, u);
        let k = k0 + 1;
        assert forall|m: nat| m <= k0 implies ancestor(preds, p, m + 1) == ancestor(
            preds,
            u,
            m,
        ) by {
            lemma_ancestor_shift(preds, p, m);
        }
        assert forall|m: nat| m <= k implies (#[trigger] ancestor(preds, p, m)) is Some by {
            if m >= 1 {
                assert(ancestor(preds, p, ((m - 1) as nat) + 1) == ancestor(
                    preds,
                    u,
                    (m - 1) as nat,
                ));
            }
        }
        assert(hits_at(preds, start, p, k)) by {
            assert(ancestor(preds, p, k0 + 1) == ancestor(preds, u, k0));
            assert forall|j: nat| 1 <= j < k implies ancestor(preds, p, j) != Some(start) by {
                if j >= 2 {
                    assert(ancestor(preds, p, ((j - 1) as nat) + 1) == ancestor(
                        preds,
                        u,
                        (j - 1) as nat,
                    ));
                }
            }
        }
        let w0 = way(preds, u, k0);
        let wy = way(preds, p, k);
        assert(wy =~= w0.push(p)) by {
            let long = chain(preds, p, k + 1);
            let short = chain(preds, u, k0 + 1);
            assert(long[0] == p);
            assert forall|m: int| 1 <= m < long.len() implies long[m] == short[m - 1] by {
                assert(ancestor(preds, p, ((m - 1) as nat) + 1) == ancestor(
                    preds,
                    u,
                    (m - 1) as nat,
                ));
            }
            assert forall|j: int| 0 <= j < wy.len() implies wy[j] == w0.push(p)[j] by {
                if j < w0.len() {
                    assert(wy[j] == long[long.len() - 1 - j]);
                    assert(w0[j] == short[short.len() - 1 - j]);
                }
            }
        }
        assert(w0.last() == u) by {
            assert(w0.last() == chain(preds, u, k0 + 1)[0]);
        }
        lemma_walk_extend(t, w0, start, p);
        k
    }
}

/// Walking back through the records when the search is over answers as the
/// search is meant to.
proof fn lemma_astar_answer(
    t: TerrainMap,
    start: Point2d,
    end: Point2d,
    g: Map<Point2d, Distance>,
    attrs: Map<u64, VertAttributes<Point2d>>,
    h: Map<Point2d, Distance>,
    f: Map<Point2d, VertAttributes<Point2d>>,
    wit: Map<Point2d, Seq<Point2d>>,
    order: Map<Point2d, nat>,
    count: nat,
    cur: Point2d,
    upto: int,
    r: Option<Vec<Point2d>>,
)
    requires
        t.wf(),
        sound_inv(t, start, g, by_point(attrs), h, f, wit, order, count),
        consistent(t, end, h) ==> opt_inv(t, start, g, h, f, cur, upto),
        gone(t, f, end),
        retraced(attrs, start, end, r),
    ensures
        a_star_result(t, start, end, h, r),
{
    let a = by_point(attrs);
    let preds = links(a);
    if start != end && g[end] is Dist {
        let k = lemma_astar_way_back(t, start, g, a, h, f, wit, order, count, end);
        match r {
            Some(path) => {
                let k1 = choose|k1: nat|
            hits_at(preds, start, end, k1) && path@ == chain(
                        preds,
                        end,
                        k1 + 1,
                    ).reverse();
                lemma_hits_once(preds, start, end, k, k1);
                assert(path@ == way(preds, end, k));
                if consistent(t, end, h) {
                    reveal(opt_inv);
                    assert forall|w: Seq<Point2d>| is_walk(t, w, start, end) implies walk_cost(
                        t,
                        path@,
                    ) <= walk_cost(t, w) by {
                        if walk_cost(t, w) <= u32::MAX {
                            assert(walk_cost(t, w) + h[end].rank() <= u32::MAX);
                        }
                    }
                }
            },
            None => {
                assert(ancestor(preds, end, k) == Some(start));
                assert(false);
            },
        }
    } else {
        assert(!preds.contains_key(end)) by {
            reveal(sound_inv);
        }
        assert(ancestor(preds, end, 0) == Some(end));
        assert(ancestor(preds, end, 1) is None);
        match r {
            Some(path) => {
                let k1 = choose|k1: nat|
            hits_at(preds, start, end, k1) && path@ == chain(
                        preds,
                        end,
                        k1 + 1,
                    ).reverse();
                lemma_ancestor_stuck(preds, end, 1, k1);
                assert(false);
            },
            None => {
                if consistent(t, end, h) && start != end {
                    reveal(opt_inv);
                    assert forall|w: Seq<Point2d>| is_walk(t, w, start, end) implies walk_cost(
                        t,
                        w,
                    ) > u32::MAX by {
                        if walk_cost(t, w) <= u32::MAX {
                            assert(walk_cost(t, w) + h[end].rank() <= u32::MAX);
                            assert(g[end].rank() <= walk_cost(t, w));
                        }
                    }
                }
            },
        }
    }
}

/// The cell lies on the map, in a column before `x` or in column `x` below
/// row `y`.
pub open spec fn seen(t: TerrainMap, p: Point2d, x: int, y: int) -> bool {
    t.in_bounds(p) && (p.0 < x || (p.0 == x && p.1 < y))
}

/// The record with which a cell enters the search.
pub open spec fn first_record(
    start: Point2d,
    h: Map<Point2d, Distance>,
    p: Point2d,
) -> VertAttributes<Point2d> {
    if p == start {
        VertAttributes { id: p, predecessor: None, distance: h[start] }
    } else {
        VertAttributes { id: p, predecessor: None, distance: Distance::Inf }
    }
}

/// The cost with which a cell enters the search.
pub open spec fn first_cost(start: Point2d, p: Point2d) -> Distance {
    if p == start {
        Distance::Dist(0)
    } else {
        Distance::Inf
    }
}

/// The tables hold the first records of the cells seen so far.
pub open spec fn filled(
    t: TerrainMap,
    start: Point2d,
    h: Map<Point2d, Distance>,
    g: Map<Point2d, Distance>,
    a: Map<Point2d, VertAttributes<Point2d>>,
    f: Map<Point2d, VertAttributes<Point2d>>,
    x: int,
    y: int,
) -> bool {
    &&& forall|p: Point2d| g.contains_key(p) <==> seen(t, p, x, y)
    &&& forall|p: Point2d| a.contains_key(p) <==> seen(t, p, x, y)
    &&& forall|p: Point2d| f.contains_key(p) <==> seen(t, p, x, y)
    &&& forall|p: Point2d| g.contains_key(p) ==> #[trigger] g[p] == first_cost(start, p)
    &&& forall|p: Point2d| a.contains_key(p) ==> #[trigger] a[p] == first_record(start, h, p)
    &&& forall|p: Point2d| f.contains_key(p) ==> #[trigger] f[p] == first_record(start, h, p)
}

/// Before the first step the search is in order.
proof fn lemma_astar_start(
    t: TerrainMap,
    start: Point2d,
    end: Point2d,
    h: Map<Point2d, Distance>,
    g: Map<Point2d, Distance>,
    a: Map<Point2d, VertAttributes<Point2d>>,
    f: Map<Point2d, VertAttributes<Point2d>>,
)
    requires
        t.wf(),
        t.passable(start),
        forall|p: Point2d| t.in_bounds(p) ==> h.contains_key(p),
        filled(t, start, h, g, a, f, t.spec_width() as int, 0),
    ensures
        sound_inv(
            t,
            start,
            g,
            a,
            h,
            f,
            Map::total(|p: Point2d| seq![start]),
            Map::total(|p: Point2d| 0nat),
            0,
        ),
        opt_inv(t, start, g, h, f, start, 0),
        f.contains_key(start),
{
    reveal(sound_inv);
    reveal(opt_inv);
    let wit = Map::total(|p: Point2d| seq![start]);
    assert(is_walk(t, wit[start], start, start));
    assert(walk_cost(t, wit[start]) == 0);
    assert forall|p: Point2d| t.in_bounds(p) <==> seen(t, p, t.spec_width() as int, 0) by {}
    assert(start.0 < t.spec_width());
}

/// Costs, records and heap after the cells seen before `(x, y)` have
/// entered the search, column by column and upwards in each column.
pub open spec fn astar_filled(
    t: TerrainMap,
    start: Point2d,
    est: Map<u64, Distance>,
    x: nat,
    y: nat,
) -> (Map<u64, Distance>, Map<u64, VertAttributes<Point2d>>, Seq<VertAttributes<Point2d>>)
    decreases x, y,
{
    if y == 0 {
        if x == 0 {
            (Map::empty(), Map::empty(), Seq::empty())
        } else {
            astar_filled(t, start, est, (x - 1) as nat, t.spec_height())
        }
    } else {
        let before = astar_filled(t, start, est, x, (y - 1) as nat);
        let p = Point2d(x as u32, (y - 1) as u32);
        let record = first_record(start, by_point(est), p);
        (
            before.0.insert(p.key_of(), first_cost(start, p)),
            before.1.insert(p.key_of(), record),
            risen(before.2.push(record), before.2.len() as int),
        )
    }
}

/// Costs, records and heap after the neighbours of `u` from place `k` on
/// have been relaxed: where the way through `u` is cheaper than a
/// neighbour's cost and the heap still holds the neighbour, the neighbour
/// gets the new cost and a new record, which takes its place in the heap
/// and rises.
pub open spec fn astar_along(
    t: TerrainMap,
    est: Map<u64, Distance>,
    u: Point2d,
    costs: Map<u64, Distance>,
    attributes: Map<u64, VertAttributes<Point2d>>,
    heap: Seq<VertAttributes<Point2d>>,
    nbs: Seq<Point2d>,
    k: nat,
) -> (Map<u64, Distance>, Map<u64, VertAttributes<Point2d>>, Seq<VertAttributes<Point2d>>)
    decreases nbs.len() - k,
{
    if k >= nbs.len() {
        (costs, attributes, heap)
    } else {
        let nb = nbs[k as int];
        let tentative = costs[u.key_of()].spec_plus(step_distance(t, u, nb));
        let next = if t.passable(u) && t.passable(nb) && tentative.spec_lt(costs[nb.key_of()])
            && holds(heap, nb) {
            let record = VertAttributes {
                id: nb,
                predecessor: Some(u),
                distance: tentative.spec_plus(est[nb.key_of()]),
            };
            (
                costs.insert(nb.key_of(), tentative),
                attributes.insert(nb.key_of(), record),
                risen(heap.update(slot(heap, nb), record), slot(heap, nb)),
            )
        } else {
            (costs, attributes, heap)
        };
        astar_along(t, est, u, next.0, next.1, next.2, nbs, k + 1)
    }
}

/// The records that the search ends with, given its costs, records and heap
/// now: the root leaves the heap, the last record takes its place and
/// sinks; the search is over where the root's cell is `end`, and else the
/// neighbours of the root's cell are relaxed. So on until the heap is
/// empty, `fuel` times at most.
pub open spec fn astar_records(
    t: TerrainMap,
    est: Map<u64, Distance>,
    end: Point2d,
    costs: Map<u64, Distance>,
    attributes: Map<u64, VertAttributes<Point2d>>,
    heap: Seq<VertAttributes<Point2d>>,
    fuel: nat,
) -> Map<u64, VertAttributes<Point2d>>
    decreases fuel,
{
    if fuel == 0 || heap.len() == 0 {
        attributes
    } else {
        let u = heap[0].id;
        let rest = sunk(heap.update(0, heap.last()).drop_last(), 0);
        if u == end {
            attributes
        } else {
            let next = astar_along(t, est, u, costs, attributes, rest, t.spec_neighbors(u), 0);
            astar_records(t, est, end, next.0, next.1, next.2, (fuel - 1) as nat)
        }
    }
}

/// What the search answers, exactly: nothing where `start` or `end` cannot
/// be walked on, and else what walking back from `end` gives in the records
/// that the search ends with.
pub open spec fn a_star_answer(
    t: TerrainMap,
    start: Point2d,
    end: Point2d,
    est: Map<u64, Distance>,
    r: Option<Vec<Point2d>>,
) -> bool {
    if t.passable(start) && t.passable(end) {
        let begun = astar_filled(t, start, est, t.spec_width(), 0);
        retraced(
            astar_records(t, est, end, begun.0, begun.1, begun.2, begun.2.len()),
            start,
            end,
            r,
        )
    } else {
        r is None
    }
}

/// Searching twice over the same map with the same estimates gives the same
/// answer.
pub proof fn lemma_a_star_repeatable(
    t: TerrainMap,
    start: Point2d,
    end: Point2d,
    est: Map<u64, Distance>,
    a: Option<Vec<Point2d>>,
    b: Option<Vec<Point2d>>,
)
    requires
        a_star_answer(t, start, end, est, a),
        a_star_answer(t, start, end, est, b),
    ensures
        a is Some <==> b is Some,
        a is Some ==> a.unwrap()@ == b.unwrap()@,
{
    if t.passable(start) && t.passable(end) {
        let begun = astar_filled(t, start, est, t.spec_width(), 0);
        lemma_retraced_once(
            astar_records(t, est, end, begun.0, begun.1, begun.2, begun.2.len()),
            start,
            end,
            a,
            b,
        );
    }
}

/// Finds a walk from `start` to `end` over the cells of the map that can be
/// walked on, guided by the estimates of the remaining cost that
/// `estimates` holds for every cell under the cell's key.
///
/// The cells leave the heap in the order of their cost so far plus their
/// estimate; the search is over as soon as `end` leaves the heap.
pub fn shortest_path_a_star_with(
    graph: &TerrainMap,
    start: Point2d,
    end: Point2d,
    estimates: &HashMap<u64, Distance>,
) -> (r: Option<Vec<Point2d>>)
    requires
        graph.wf(),
        forall|p: Point2d| graph.in_bounds(p) ==> estimates@.contains_key(p.key_of()),
    ensures
        a_star_result(*graph, start, end, by_point(estimates@), r),
        a_star_answer(*graph, start, end, estimates@, r),
{
    let ghost h = by_point(estimates@);
    let start_ok = match graph.get(start.x(), start.y()) {
        Some(MapSlice::Height(_)) => true,
        _ => false,
    };
    let end_ok = match graph.get(end.x(), end.y()) {
        Some(MapSlice::Height(_)) => true,
        _ => false,
    };
    if !start_ok || !end_ok {
        proof {
            assert forall|w: Seq<Point2d>| is_walk(*graph, w, start, end) implies walk_cost(
                *graph,
                w,
            ) > u32::MAX by {
                assert(graph.passable(w[0]));
                assert(graph.passable(w[w.len() - 1]));
            }
        }
        return None;
    }
    let mut real_dist: HashMap<u64, Distance> = HashMap::new();
    let mut attributes: HashMap<u64, VertAttributes<Point2d>> = HashMap::new();
    let mut heap: PositionTrackingMinHeap<Point2d> = PositionTrackingMinHeap::new();
    let width = graph.width();
    let height = graph.height();
    let init_dist = match estimates.get(&start.key()) {
        Some(d) => *d,
        None => Distance::Inf,
    };
    proof {
        assert(heap.entries() =~= Map::<Point2d, VertAttributes<Point2d>>::empty());
        assert(by_point(real_dist@) =~= Map::<Point2d, Distance>::empty());
        assert(by_point(attributes@) =~= Map::<Point2d, VertAttributes<Point2d>>::empty());
        assert(init_dist == h[start]);
    }
    let mut x: u32 = 0;
    while x < width
        invariant
            graph.wf(),
            width == graph.spec_width(),
            height == graph.spec_height(),
            x <= width,
            heap.wf(),
            init_dist == h[start],
            h == by_point(estimates@),
            (real_dist@, attributes@, heap@) == astar_filled(
                *graph,
                start,
                estimates@,
                x as nat,
                0,
            ),
            filled(
                *graph,
                start,
                h,
                by_point(real_dist@),
                by_point(attributes@),
                heap.entries(),
                x as int,
                0,
            ),
        decreases width - x,
    {
        let mut y: u32 = 0;
        while y < height
            invariant
                graph.wf(),
                width == graph.spec_width(),
                height == graph.spec_height(),
                x < width,
                y <= height,
                heap.wf(),
                init_dist == h[start],
                h == by_point(estimates@),
                (real_dist@, attributes@, heap@) == astar_filled(
                    *graph,
                    start,
                    estimates@,
                    x as nat,
                    y as nat,
                ),
                filled(
                    *graph,
                    start,
                    h,
                    by_point(real_dist@),
                    by_point(attributes@),
                    heap.entries(),
                    x as int,
                    y as int,
                ),
            decreases height - y,
        {
            let point = Point2d::new(x, y);
            let record = if point == start {
                VertAttributes::new_dist(point, init_dist)
            } else {
                VertAttributes::new_inf(point)
            };
            let cost = if point == start {
                Distance::Dist(0)
            } else {
                Distance::Inf
            };
            proof {
                lemma_by_point_insert(real_dist@, point, cost);
                lemma_by_point_insert(attributes@, point, record);
                assert(!seen(*graph, point, x as int, y as int));
                assert(!heap.entries().contains_key(point));
            }
            real_dist.insert(point.key(), cost);
            attributes.insert(point.key(), record);
            heap.insert(record);
            y += 1;
        }
        proof {
            assert forall|p: Point2d|
                seen(*graph, p, x as int, height as int) <==> seen(*graph, p, x + 1, 0) by {}
            assert(astar_filled(*graph, start, estimates@, (x + 1) as nat, 0) == astar_filled(
                *graph,
                start,
                estimates@,
                x as nat,
                height as nat,
            ));
        }
        x += 1;
    }
    let ghost mut wit: Map<Point2d, Seq<Point2d>> = Map::total(|p: Point2d| seq![start]);
    let ghost mut order: Map<Point2d, nat> = Map::total(|p: Point2d| 0nat);
    let ghost mut count: nat = 0;
    let ghost mut cur: Point2d = start;
    let ghost mut upto: int = 0;
    proof {
        lemma_astar_start(
            *graph,
            start,
            end,
            h,
            by_point(real_dist@),
            by_point(attributes@),
            heap.entries(),
        );
    }
    let ghost goal = astar_records(
        *graph,
        estimates@,
        end,
        real_dist@,
        attributes@,
        heap@,
        heap@.len(),
    );
    let mut reached = false;
    while !reached && !heap.is_empty()
        invariant
            graph.wf(),
            heap.wf(),
            reached ==> attributes@ == goal,
            !reached ==> astar_records(
                *graph,
                estimates@,
                end,
                real_dist@,
                attributes@,
                heap@,
                heap@.len(),
            ) == goal,
            h == by_point(estimates@),
            graph.in_bounds(end),
            sound_inv(
                *graph,
                start,
                by_point(real_dist@),
                by_point(attributes@),
                h,
                heap.entries(),
                wit,
                order,
                count,
            ),
            consistent(*graph, end, h) ==> opt_inv(
                *graph,
                start,
                by_point(real_dist@),
                h,
                heap.entries(),
                cur,
                upto,
            ),
            reached || upto >= graph.spec_neighbors(cur).len() || heap.entries().contains_key(cur),
            reached ==> !heap.entries().contains_key(end),
        decreases heap@.len(),
    {
        let ghost before = heap.entries();
        let min_vert = heap.extract_min();
        let u = min_vert.id;
        proof {
            let g = by_point(real_dist@);
            let a = by_point(attributes@);
            lemma_astar_parts(*graph, start, g, a, h, before, wit, order, count);
            assert(before.contains_key(u));
            if consistent(*graph, end, h) {
                lemma_astar_pop_opt(
                    *graph,
                    start,
                    end,
                    g,
                    a,
                    h,
                    before,
                    wit,
                    order,
                    count,
                    cur,
                    upto,
                    u,
                );
            }
            lemma_astar_pop_sound(*graph, start, g, a, h, before, wit, order, count, u);
            order = order.insert(u, count);
            count = count + 1;
            cur = u;
            upto = 0;
        }
        let ghost after_len = heap@.len();
        let ghost popped = (real_dist@, attributes@, heap@);
        if u == end {
            reached = true;
        } else {
            let nbs = graph.neighbors(&u);
            let mut k: usize = 0;
            while k < nbs.len()
                invariant
                    graph.wf(),
                    heap.wf(),
                    h == by_point(estimates@),
                    graph.in_bounds(end),
                    forall|p: Point2d| graph.in_bounds(p) ==> estimates@.contains_key(p.key_of()),
                    nbs@ == graph.spec_neighbors(u),
                    k <= nbs@.len(),
                    cur == u,
                    upto == k,
                    gone(*graph, heap.entries(), u),
                    heap@.len() == after_len,
                    astar_along(
                        *graph,
                        estimates@,
                        u,
                        real_dist@,
                        attributes@,
                        heap@,
                        nbs@,
                        k as nat,
                    ) == astar_along(
                        *graph,
                        estimates@,
                        u,
                        popped.0,
                        popped.1,
                        popped.2,
                        nbs@,
                        0,
                    ),
                    sound_inv(
                        *graph,
                        start,
                        by_point(real_dist@),
                        by_point(attributes@),
                        h,
                        heap.entries(),
                        wit,
                        order,
                        count,
                    ),
                    consistent(*graph, end, h) ==> opt_inv(
                        *graph,
                        start,
                        by_point(real_dist@),
                        h,
                        heap.entries(),
                        cur,
                        upto,
                    ),
                decreases nbs@.len() - k,
            {
                let nb = nbs[k];
                let ghost g = by_point(real_dist@);
                let ghost a = by_point(attributes@);
                let ghost f = heap.entries();
                proof {
                    lemma_astar_parts(*graph, start, g, a, h, f, wit, order, count);
                    assert(graph.spec_neighbors(u).contains(nb));
                    lemma_neighbors(*graph, u, nb);
                    assert(g.contains_key(u) && g.contains_key(nb));
                }
                let mut lowered = false;
                match graph.distance(&u, &nb) {
                    Some(d) => {
                        let gu = match real_dist.get(&u.key()) {
                            Some(v) => *v,
                            None => Distance::Inf,
                        };
                        let gn = match real_dist.get(&nb.key()) {
                            Some(v) => *v,
                            None => Distance::Inf,
                        };
                        let tentative = gu + d;
                        if tentative < gn {
                            if let Some(idx) = heap.vert_index(nb) {
                                let hn = match estimates.get(&nb.key()) {
                                    Some(v) => *v,
                                    None => Distance::Inf,
                                };
                                let new_attr = VertAttributes {
                                    id: nb,
                                    predecessor: Some(u),
                                    distance: tentative + hn,
                                };
                                proof {
                                    assert(hn == h[nb]);
                                    lemma_astar_update_sound(
                                        *graph,
                                        start,
                                        g,
                                        a,
                                        h,
                                        f,
                                        wit,
                                        order,
                                        count,
                                        u,
                                        nb,
                                        tentative,
                                    );
                                    if consistent(*graph, end, h) {
                                        lemma_astar_update_opt(
                                            *graph,
                                            start,
                                            g,
                                            h,
                                            f,
                                            u,
                                            k as int,
                                            tentative,
                                            new_attr,
                                        );
                                    }
                                    lemma_by_point_insert(real_dist@, nb, tentative);
                                    lemma_by_point_insert(attributes@, nb, new_attr);
                                    wit = wit.insert(nb, wit[u].push(nb));
                                }
                                attributes.insert(nb.key(), new_attr);
                                heap.heap_decrease_key(idx, new_attr);
                                real_dist.insert(nb.key(), tentative);
                                lowered = true;
                            }
                        }
                    },
                    None => {},
                }
                proof {
                    if !lowered {
                        if consistent(*graph, end, h) {
                            lemma_astar_skip_opt(
                                *graph,
                                start,
                                g,
                                a,
                                h,
                                f,
                                wit,
                                order,
                                count,
                                u,
                                k as int,
                            );
                        }
                    }
                    upto = k + 1;
                }
                k += 1;
            }
        }
    }
    proof {
        if !reached {
            assert(!heap.entries().contains_key(end)) by {
                if heap.entries().contains_key(end) {
                    let i = slot(heap@, end);
                }
            }
        }
    }
    let r = a_star_recreate_path(&attributes, &start, &end);
    proof {
        lemma_astar_answer(
            *graph,
            start,
            end,
            by_point(real_dist@),
            attributes@,
            h,
            heap.entries(),
            wit,
            order,
            count,
            cur,
            upto,
            r,
        );
    }
    r
}

/// The table holds, for every cell of the map, what the heuristic answers
/// for that cell and `end`.
pub open spec fn measured<H: Fn(&Point2d, &Point2d) -> Distance>(
    t: TerrainMap,
    heuristic: H,
    end: Point2d,
    est: Map<u64, Distance>,
) -> bool {
    forall|p: Point2d| #[trigger]
        t.in_bounds(p) ==> est.contains_key(p.key_of()) && call_ensures(
            heuristic,
            (&p, &end),
            est[p.key_of()],
        )
}

/// Finds a walk from `start` to `end` over the cells of the map that can be
/// walked on, guided by `heuristic`, which estimates the cost that remains
/// from a cell to `end`.
///
/// The heuristic is asked once for every cell of the map; the search then
/// goes by its answers.
pub fn shortest_path_a_star<H: Fn(&Point2d, &Point2d) -> Distance>(
    graph: &TerrainMap,
    start: Point2d,
    end: Point2d,
    heuristic: H,
) -> (r: Option<Vec<Point2d>>)
    requires
        graph.wf(),
        forall|p: Point2d| #[trigger] graph.in_bounds(p) ==> call_requires(heuristic, (&p, &end)),
    ensures
        exists|est: Map<u64, Distance>|
            measured(*graph, heuristic, end, est) && a_star_result(
                *graph,
                start,
                end,
                by_point(est),
                r,
            ) && a_star_answer(*graph, start, end, est, r),
{
    let mut estimates: HashMap<u64, Distance> = HashMap::new();
    let width = graph.width();
    let height = graph.height();
    let mut x: u32 = 0;
    while x < width
        invariant
            graph.wf(),
            width == graph.spec_width(),
            height == graph.spec_height(),
            x <= width,
            forall|p: Point2d| #[trigger]
                graph.in_bounds(p) ==> call_requires(heuristic, (&p, &end)),
            forall|p: Point2d| #[trigger]
                seen(*graph, p, x as int, 0) ==> estimates@.contains_key(p.key_of())
                    && call_ensures(heuristic, (&p, &end), estimates@[p.key_of()]),
        decreases width - x,
    {
        let mut y: u32 = 0;
        while y < height
            invariant
                graph.wf(),
                width == graph.spec_width(),
                height == graph.spec_height(),
                x < width,
                y <= height,
                forall|p: Point2d| #[trigger]
                    graph.in_bounds(p) ==> call_requires(heuristic, (&p, &end)),
                forall|p: Point2d| #[trigger]
                    seen(*graph, p, x as int, y as int) ==> estimates@.contains_key(p.key_of())
                        && call_ensures(heuristic, (&p, &end), estimates@[p.key_of()]),
            decreases height - y,
        {
            let point = Point2d::new(x, y);
            assert(graph.in_bounds(point));
            let estimate = heuristic(&point, &end);
            let ghost before = estimates@;
            estimates.insert(point.key(), estimate);
            proof {
                assert forall|p: Point2d| #[trigger]
                    seen(*graph, p, x as int, y + 1) implies estimates@.contains_key(p.key_of())
                    && call_ensures(heuristic, (&p, &end), estimates@[p.key_of()]) by {
                    if p != point {
                        assert(seen(*graph, p, x as int, y as int));
                        assert(p.key_of() != point.key_of()) by {
                            if p.key_of() == point.key_of() {
                                Point2d::lemma_key_injective(p, point);
                            }
                        }
                        assert(before.contains_key(p.key_of()));
                        assert(estimates@[p.key_of()] == before[p.key_of()]);
                    }
                }
            }
            y += 1;
        }
        proof {
            assert forall|p: Point2d| #[trigger]
                seen(*graph, p, x + 1, 0) implies estimates@.contains_key(p.key_of())
                && call_ensures(heuristic, (&p, &end), estimates@[p.key_of()]) by {
                assert(seen(*graph, p, x as int, height as int));
            }
        }
        x += 1;
    }
    proof {
        assert forall|p: Point2d| #[trigger]
            graph.in_bounds(p) implies estimates@.contains_key(p.key_of()) && call_ensures(
            heuristic,
            (&p, &end),
            estimates@[p.key_of()],
        ) by {
            assert(seen(*graph, p, width as int, 0));
        }
        assert(measured(*graph, heuristic, end, estimates@));
    }
    shortest_path_a_star_with(graph, start, end, &estimates)
}

/// Estimates that are zero everywhere are consistent.
pub proof fn lemma_zero_estimates_are_consistent(
    t: TerrainMap,
    end: Point2d,
    h: Map<Point2d, Distance>,
)
    requires
        t.in_bounds(end),
        forall|p: Point2d| t.in_bounds(p) ==> #[trigger] h[p] == Distance::Dist(0),
    ensures
        consistent(t, end, h),
{
    assert forall|a: Point2d, b: Point2d|
        t.passable(a) && t.passable(b) && #[trigger] adjacent(a, b) implies h[a].rank()
        <= step_cost(t, a, b) + h[b].rank() by {
        assert(h[a] == Distance::Dist(0));
    }
}

/// With estimates that are zero everywhere the search finds a cheapest walk,
/// and finds one whenever the two cells differ and some walk costs no more
/// than a finite distance can hold.
pub proof fn lemma_zero_estimates_find_the_cheapest(
    t: TerrainMap,
    start: Point2d,
    end: Point2d,
    h: Map<Point2d, Distance>,
    r: Option<Vec<Point2d>>,
)
    requires
        forall|p: Point2d| t.in_bounds(p) ==> #[trigger] h[p] == Distance::Dist(0),
        a_star_result(t, start, end, h, r),
    ensures
        match r {
            Some(path) => is_walk(t, path@, start, end) && walk_cost(t, path@) <= u32::MAX
                && forall|w: Seq<Point2d>|
                is_walk(t, w, start, end) ==> walk_cost(t, path@) <= walk_cost(t, w),
            None => start == end || forall|w: Seq<Point2d>|
                is_walk(t, w, start, end) ==> walk_cost(t, w) > u32::MAX,
        },
{
    if t.in_bounds(end) {
        lemma_zero_estimates_are_consistent(t, end, h);
    } else {
        match r {
            Some(path) => {
                assert(t.passable(path@[path@.len() - 1]));
            },
            None => {
                assert forall|w: Seq<Point2d>| is_walk(t, w, start, end) implies walk_cost(t, w)
                    > u32::MAX by {
                    assert(t.passable(w[w.len() - 1]));
                }
            },
        }
    }
}

/// The graph `g` mirrors the map `t` under the numbering `id` of the cells:
/// cells that can be walked on have numbers of their own, the graph has an
/// edge for every step between two such cells, with the step's cost as its
/// weight, and no other edge.
pub open spec fn mirrors(g: Graph, t: TerrainMap, id: spec_fn(Point2d) -> u32) -> bool {
    &&& forall|a: Point2d, b: Point2d|
        t.passable(a) && t.passable(b) && #[trigger] id(a) == #[trigger] id(b) ==> a == b
    &&& forall|a: Point2d, b: Point2d|
        t.passable(a) && t.passable(b) && #[trigger] adjacent(a, b) ==> exists|e: Edge|
            #[trigger] g.has_edge(e) && e.from == id(a) && e.to == id(b) && e.cost() == step_cost(
                t,
                a,
                b,
            )
    &&& forall|e: Edge| #[trigger]
        g.has_edge(e) ==> exists|a: Point2d, b: Point2d|
            t.passable(a) && t.passable(b) && #[trigger] adjacent(a, b) && e.from == id(a) && e.to
                == id(b) && e.cost() == step_cost(t, a, b)
}

/// A walk over the map has a path through the mirroring graph of the same
/// weight.
pub proof fn lemma_walk_has_path(
    g: Graph,
    t: TerrainMap,
    id: spec_fn(Point2d) -> u32,
    w: Seq<Point2d>,
    s: Point2d,
    e: Point2d,
) -> (p: Seq<Edge>)
    requires
        mirrors(g, t, id),
        is_walk(t, w, s, e),
    ensures
        is_path(g, p, id(s), id(e)),
        path_weight(p) == walk_cost(t, w),
    decreases w.len(),
{
    if w.len() == 1 {
        let p = Seq::<Edge>::empty();
        assert(is_path(g, p, id(s), id(e)));
        p
    } else {
        let x = w[w.len() - 2];
        lemma_walk_prefix(t, w, s, e);
        let q = lemma_walk_has_path(g, t, id, w.drop_last(), s, x);
        assert(adjacent(x, e));
        let edge = choose|edge: Edge|
            #[trigger] g.has_edge(edge) && edge.from == id(x) && edge.to == id(e) && edge.cost()
                == step_cost(t, x, e);
        lemma_path_extend(g, q, id(s), edge);
        q.push(edge)
    }
}

/// A path through the mirroring graph from the number of a cell that can be
/// walked on has a walk over the map of the same weight.
pub proof fn lemma_path_has_walk(
    g: Graph,
    t: TerrainMap,
    id: spec_fn(Point2d) -> u32,
    p: Seq<Edge>,
    s: Point2d,
    v: u32,
) -> (w: Seq<Point2d>)
    requires
        mirrors(g, t, id),
        t.passable(s),
        is_path(g, p, id(s), v),
    ensures
        is_walk(t, w, s, w.last()),
        id(w.last()) == v,
        walk_cost(t, w) == path_weight(p),
    decreases p.len(),
{
    if p.len() == 0 {
        let w = seq![s];
        assert(is_walk(t, w, s, s));
        w
    } else {
        let edge = p.last();
        lemma_path_prefix(g, p, id(s), v);
        let q = lemma_path_has_walk(g, t, id, p.drop_last(), s, edge.from);
        let (a, b) = choose|a: Point2d, b: Point2d|
            t.passable(a) && t.passable(b) && #[trigger] adjacent(a, b) && edge.from == id(a)
                && edge.to == id(b) && edge.cost() == step_cost(t, a, b);
        assert(t.passable(q[q.len() - 1]));
        assert(id(a) == id(q.last()));
        assert(a == q.last());
        lemma_walk_extend(t, q, s, b);
        q.push(b)
    }
}

/// What the search with estimates that are zero everywhere answers for a map
/// costs as much as what Dijkstra's algorithm answers for a graph that
/// mirrors the map: one finds a way exactly when the other does, and the
/// walk that the search answers weighs as much as every lightest path
/// behind Dijkstra's answer.
pub proof fn lemma_zero_estimates_agree_with_dijkstra(
    g: Graph,
    t: TerrainMap,
    id: spec_fn(Point2d) -> u32,
    start: Point2d,
    end: Point2d,
    h: Map<Point2d, Distance>,
    a_star: Option<Vec<Point2d>>,
    dijkstra: Option<Edges>,
)
    requires
        g.wf(),
        mirrors(g, t, id),
        t.passable(start),
        t.passable(end),
        forall|p: Point2d| t.in_bounds(p) ==> #[trigger] h[p] == Distance::Dist(0),
        a_star_result(t, start, end, h, a_star),
        shortest_path_result(g, id(start), id(end), dijkstra),
    ensures
        a_star is Some <==> dijkstra is Some,
        forall|p: Seq<Edge>|
            a_star is Some && dijkstra is Some && is_shortest_path(g, p, id(start), id(end))
                ==> path_weight(p) == walk_cost(t, a_star.unwrap()@),
{
    lemma_zero_estimates_find_the_cheapest(t, start, end, h, a_star);
    match a_star {
        Some(path) => {
            let mirrored = lemma_walk_has_path(g, t, id, path@, start, end);
            if dijkstra is None {
                assert(path@[0] == start && path@[path@.len() - 1] == end);
                assert(id(start) != id(end));
                assert(is_path(g, mirrored, id(start), id(end)));
                assert(false);
            }
            assert forall|p: Seq<Edge>|
                dijkstra is Some && is_shortest_path(g, p, id(start), id(end)) implies path_weight(
                p,
            ) == walk_cost(t, path@) by {
                assert(path_weight(p) <= path_weight(mirrored));
                let w = lemma_path_has_walk(g, t, id, p, start, id(end));
                assert(t.passable(w[w.len() - 1]));
                assert(w.last() == end);
                assert(is_walk(t, w, start, end));
            }
        },
        None => {
            if dijkstra is Some {
                let p = choose|p: Seq<Edge>|
                    is_shortest_path(g, p, id(start), id(end)) && path_weight(p) <= u32::MAX
                        && dijkstra.unwrap()@ == unweighted_path(p);
                let w = lemma_path_has_walk(g, t, id, p, start, id(end));
                assert(t.passable(w[w.len() - 1]));
                assert(w.last() == end);
                assert(is_walk(t, w, start, end));
                assert(start != end);
                assert(false);
            }
        },
    }
}

/// The number of steps between two cells where nothing is in the way.
pub open spec fn manhattan(a: Point2d, b: Point2d) -> nat {
    height_gap(a.0, b.0) + height_gap(a.1, b.1)
}

/// Every cell of the map can be walked on, at the height `level`.
pub open spec fn level_ground(t: TerrainMap, level: u32) -> bool {
    forall|x: int, y: int|
        0 <= x < t.spec_width() && 0 <= y < t.spec_height() ==> #[trigger] t.cell(x, y)
            == MapSlice::Height(level)
}

/// On level ground a walk costs one for each of its steps.
pub proof fn lemma_level_walk_cost(t: TerrainMap, level: u32, w: Seq<Point2d>, s: Point2d, e: Point2d)
    requires
        level_ground(t, level),
        is_walk(t, w, s, e),
    ensures
        walk_cost(t, w) == w.len() - 1,
    decreases w.len(),
{
    if w.len() >= 2 {
        lemma_walk_prefix(t, w, s, e);
        lemma_level_walk_cost(t, level, w.drop_last(), s, w[w.len() - 2]);
        let x = w[w.len() - 2];
        assert(t.cell(x.0 as int, x.1 as int) == MapSlice::Height(level));
        assert(t.cell(e.0 as int, e.1 as int) == MapSlice::Height(level));
    }
}

/// No walk has fewer steps than the Manhattan distance between its ends.
pub proof fn lemma_walk_is_no_shortcut(t: TerrainMap, w: Seq<Point2d>, s: Point2d, e: Point2d)
    requires
        is_walk(t, w, s, e),
    ensures
        manhattan(s, e) <= w.len() - 1,
    decreases w.len(),
{
    if w.len() >= 2 {
        lemma_walk_prefix(t, w, s, e);
        lemma_walk_is_no_shortcut(t, w.drop_last(), s, w[w.len() - 2]);
    }
}

/// On level ground some walk between two cells of the map has exactly as
/// many steps as their Manhattan distance.
pub proof fn lemma_straight_walk(t: TerrainMap, level: u32, s: Point2d, e: Point2d) -> (w: Seq<
    Point2d,
>)
    requires
        t.wf(),
        level_ground(t, level),
        t.in_bounds(s),
        t.in_bounds(e),
    ensures
        is_walk(t, w, s, e),
        w.len() == manhattan(s, e) + 1,
    decreases manhattan(s, e),
{
    t.lemma_size();
    assert(t.cell(s.0 as int, s.1 as int) == MapSlice::Height(level));
    assert(t.cell(e.0 as int, e.1 as int) == MapSlice::Height(level));
    if s == e {
        let w = seq![s];
        assert(is_walk(t, w, s, e));
        w
    } else {
        let before = if e.0 > s.0 {
            Point2d((e.0 - 1) as u32, e.1)
        } else if e.0 < s.0 {
            Point2d((e.0 + 1) as u32, e.1)
        } else if e.1 > s.1 {
            Point2d(e.0, (e.1 - 1) as u32)
        } else {
            Point2d(e.0, (e.1 + 1) as u32)
        };
        assert(t.in_bounds(before));
        assert(adjacent(before, e));
        assert(manhattan(s, before) + 1 == manhattan(s, e));
        let q = lemma_straight_walk(t, level, s, before);
        lemma_walk_extend(t, q, s, e);
        q.push(e)
    }
}

/// On level ground without obstacles, the search guided by the Manhattan
/// distance to `end` answers a walk of exactly as many steps as the
/// Manhattan distance between `start` and `end`, where the two differ.
pub proof fn lemma_manhattan_estimates_on_level_ground(
    t: TerrainMap,
    level: u32,
    start: Point2d,
    end: Point2d,
    h: Map<Point2d, Distance>,
    r: Option<Vec<Point2d>>,
)
    requires
        t.wf(),
        level_ground(t, level),
        t.in_bounds(start),
        t.in_bounds(end),
        start != end,
        manhattan(start, end) <= u32::MAX,
        forall|p: Point2d| t.in_bounds(p) ==> (#[trigger] h[p]).rank() == manhattan(p, end),
        a_star_result(t, start, end, h, r),
    ensures
        r is Some,
        is_walk(t, r.unwrap()@, start, end),
        r.unwrap()@.len() == manhattan(start, end) + 1,
{
    assert(h[end].rank() == 0);
    assert(consistent(t, end, h)) by {
        assert forall|a: Point2d, b: Point2d|
            t.passable(a) && t.passable(b) && #[trigger] adjacent(a, b) implies h[a].rank()
            <= step_cost(t, a, b) + h[b].rank() by {
            assert(h[a].rank() == manhattan(a, end));
            assert(h[b].rank() == manhattan(b, end));
        }
    }
    let straight = lemma_straight_walk(t, level, start, end);
    lemma_level_walk_cost(t, level, straight, start, end);
    match r {
        Some(path) => {
            lemma_level_walk_cost(t, level, path@, start, end);
            lemma_walk_is_no_shortcut(t, path@, start, end);
            assert(walk_cost(t, path@) <= walk_cost(t, straight));
        },
        None => {
            assert(is_walk(t, straight, start, end));
            assert(false);
        },
    }
}

} // verus!
