//! The adjacency-list graph and the vertex sequence that traversals return.

use crate::edge::{Edge, Edges};
use std::collections::HashMap;
use vstd::prelude::*;
use vstd::std_specs::hash::group_hash_axioms;

verus! {

broadcast use group_hash_axioms;

/// `s` itself when it already holds `v`, otherwise `s` with `v` appended.
pub open spec fn with_vertex(s: Seq<u32>, v: u32) -> Seq<u32> {
    if s.contains(v) {
        s
    } else {
        s.push(v)
    }
}

/// A directed graph. Vertices are kept in the order in which they were first
/// mentioned; each vertex owns the list of edges that leave it.
pub struct Graph {
    keys: Vec<u32>,
    adj: Vec<Edges>,
    index: HashMap<u32, usize>,
}

impl Graph {
    /// The vertices, in order of first insertion.
    pub closed spec fn vertices(&self) -> Seq<u32> {
        self.keys@
    }

    /// The edges that leave the vertex at position `i`, in insertion order.
    pub closed spec fn edges_of(&self, i: int) -> Seq<Edge> {
        self.adj@[i]@
    }

    /// The lookup table from vertex to position agrees with the vertex order.
    pub closed spec fn index_consistent(&self) -> bool {
        &&& self.adj@.len() == self.keys@.len()
        &&& forall|i: int|
            0 <= i < self.keys@.len() ==> self.index@.contains_key(#[trigger] self.keys@[i])
                && self.index@[self.keys@[i]] == i
        &&& forall|k: u32| #[trigger]
            self.index@.contains_key(k) ==> self.index@[k] < self.keys@.len()
                && self.keys@[self.index@[k] as int] == k
    }

    /// Well-formedness: no vertex is listed twice, every edge is filed under
    /// its source, and every edge's target is a vertex of the graph.
    pub open spec fn wf(&self) -> bool {
        &&& self.index_consistent()
        &&& self.vertices().no_duplicates()
        &&& forall|i: int, k: int|
            0 <= i < self.vertices().len() && 0 <= k < self.edges_of(i).len() ==> {
                &&& (#[trigger] self.edges_of(i)[k]).from == self.vertices()[i]
                &&& self.vertices().contains(self.edges_of(i)[k].to)
            }
    }

    /// Whether `v` is a vertex of the graph.
    pub open spec fn contains_vertex(&self, v: u32) -> bool {
        self.vertices().contains(v)
    }

    /// The edges that leave `v`; empty when `v` is not a vertex.
    pub open spec fn out(&self, v: u32) -> Seq<Edge> {
        if self.vertices().contains(v) {
            self.edges_of(self.vertices().index_of(v))
        } else {
            Seq::empty()
        }
    }

    /// Whether `e` is one of the graph's edges.
    pub open spec fn has_edge(&self, e: Edge) -> bool {
        self.out(e.from).contains(e)
    }

    /// The graph without vertices.
    pub fn new() -> (g: Graph)
        ensures
            g.wf(),
            g.vertices() == Seq::<u32>::empty(),
    {
        Graph { keys: Vec::new(), adj: Vec::new(), index: HashMap::new() }
    }

    /// The number of vertices.
    pub fn vertex_count(&self) -> (n: usize)
        ensures
            n == self.vertices().len(),
    {
        self.keys.len()
    }

    /// The vertex at position `i` of the insertion order.
    pub fn vertex_at(&self, i: usize) -> (v: u32)
        requires
            i < self.vertices().len(),
        ensures
            v == self.vertices()[i as int],
    {
        self.keys[i]
    }

    /// The edges leaving the vertex at position `i`.
    pub fn edges_at(&self, i: usize) -> (e: &Edges)
        requires
            self.wf(),
            i < self.vertices().len(),
        ensures
            e@ == self.edges_of(i as int),
    {
        &self.adj[i]
    }

    /// The position of `v` in the insertion order, if it is a vertex.
    pub fn position(&self, v: u32) -> (r: Option<usize>)
        requires
            self.wf(),
        ensures
            match r {
                Some(i) => i < self.vertices().len() && self.vertices()[i as int] == v,
                None => !self.vertices().contains(v),
            },
    {
        match self.index.get(&v) {
            Some(i) => Some(*i),
            None => None,
        }
    }

    /// The position of the vertex `v` in the insertion order.
    pub fn position_of(&self, v: u32) -> (i: usize)
        requires
            self.wf(),
            self.contains_vertex(v),
        ensures
            i < self.vertices().len(),
            self.vertices()[i as int] == v,
    {
        match self.index.get(&v) {
            Some(i) => *i,
            None => 0,
        }
    }

    /// Where `v` is a vertex, its position is the unique index that holds it.
    pub proof fn lemma_position_unique(&self, v: u32, i: int)
        requires
            self.wf(),
            0 <= i < self.vertices().len(),
            self.vertices()[i] == v,
        ensures
            self.vertices().contains(v),
            self.vertices().index_of(v) == i,
            self.out(v) == self.edges_of(i),
    {
        let j = self.vertices().index_of(v);
        assert(self.vertices()[j] == v);
    }

    /// Makes `v` a vertex if it is none yet, and returns its position.
    fn ensure_vertex(&mut self, v: u32) -> (i: usize)
        requires
            old(self).wf(),
        ensures
            final(self).wf(),
            final(self).vertices() == with_vertex(old(self).vertices(), v),
            i < final(self).vertices().len(),
            final(self).vertices()[i as int] == v,
            forall|j: int|
                0 <= j < old(self).vertices().len() ==> final(self).edges_of(j) == old(
                    self,
                ).edges_of(j),
            !old(self).vertices().contains(v) ==> final(self).edges_of(i as int) == Seq::<
                Edge,
            >::empty(),
    {
        match self.index.get(&v) {
            Some(i) => *i,
            None => {
                let i = self.keys.len();
                self.keys.push(v);
                self.adj.push(Edges::Empty);
                self.index.insert(v, i);
                proof {
                    assert forall|a: int, b: int|
                        0 <= a < self.keys@.len() && 0 <= b < self.keys@.len() && a
                            != b implies self.keys@[a] != self.keys@[b] by {
                        if a < i && b < i {
                            assert(old(self).keys@[a] != old(self).keys@[b]);
                        } else if a < i {
                            assert(old(self).index@.contains_key(old(self).keys@[a]));
                        } else if b < i {
                            assert(old(self).index@.contains_key(old(self).keys@[b]));
                        }
                    }
                    assert forall|a: int, k: int|
                        0 <= a < self.vertices().len() && 0 <= k < self.edges_of(
                            a,
                        ).len() implies (#[trigger] self.edges_of(a)[k]).from
                        == self.vertices()[a] && self.vertices().contains(
                        self.edges_of(a)[k].to,
                    ) by {
                        assert(a < i);
                        let e = old(self).edges_of(a)[k];
                        assert(old(self).vertices().contains(e.to));
                        let t = old(self).vertices().index_of(e.to);
                        assert(self.vertices()[t] == e.to);
                    }
                }
                i
            },
        }
    }

    /// Appends `edge` to the list of the vertex at position `i`.
    fn push_edge(&mut self, i: usize, edge: Edge)
        requires
            old(self).wf(),
            i < old(self).vertices().len(),
            old(self).vertices()[i as int] == edge.from,
            old(self).vertices().contains(edge.to),
        ensures
            final(self).wf(),
            final(self).vertices() == old(self).vertices(),
            final(self).edges_of(i as int) == old(self).edges_of(i as int).push(edge),
            forall|j: int|
                0 <= j < old(self).vertices().len() && j != i ==> final(self).edges_of(j) == old(
                    self,
                ).edges_of(j),
    {
        self.adj[i].add_edge(edge);
        proof {
            assert forall|a: int, k: int|
                0 <= a < self.vertices().len() && 0 <= k < self.edges_of(
                    a,
                ).len() implies (#[trigger] self.edges_of(a)[k]).from == self.vertices()[a]
                && self.vertices().contains(self.edges_of(a)[k].to) by {
                if a == i && k == old(self).edges_of(a).len() {
                } else {
                    assert(self.edges_of(a)[k] == old(self).edges_of(a)[k]);
                }
            }
        }
    }

    /// Inserts a directed edge. Both endpoints become vertices of the graph,
    /// the target with no outgoing edges if it was unknown.
    pub fn add_adj(&mut self, edge: Edge)
        requires
            old(self).wf(),
        ensures
            final(self).wf(),
            final(self).vertices() == with_vertex(
                with_vertex(old(self).vertices(), edge.from),
                edge.to,
            ),
            forall|v: u32|
                #[trigger] final(self).out(v) == if v == edge.from {
                    old(self).out(v).push(edge)
                } else {
                    old(self).out(v)
                },
    {
        let i = self.ensure_vertex(edge.from);
        let ghost mid = *self;
        let _ = self.ensure_vertex(edge.to);
        let ghost mid2 = *self;
        self.push_edge(i, edge);
        proof {
            assert forall|v: u32|
                #[trigger] self.out(v) == if v == edge.from {
                    old(self).out(v).push(edge)
                } else {
                    old(self).out(v)
                } by {
                Self::lemma_out_after(*old(self), mid, mid2, *self, v, edge, i as int);
            }
        }
    }

    /// Making `x` a vertex changes the edges of no vertex.
    proof fn lemma_out_grow(a: Graph, b: Graph, v: u32, x: u32)
        requires
            a.wf(),
            b.wf(),
            b.vertices() == with_vertex(a.vertices(), x),
            forall|j: int| 0 <= j < a.vertices().len() ==> b.edges_of(j) == a.edges_of(j),
            !a.vertices().contains(x) ==> b.edges_of(a.vertices().len() as int) == Seq::<
                Edge,
            >::empty(),
        ensures
            b.out(v) == a.out(v),
    {
        if a.vertices().contains(v) {
            let j = a.vertices().index_of(v);
            assert(b.vertices()[j] == v);
            b.lemma_position_unique(v, j);
        } else if b.vertices().contains(v) {
            let j = b.vertices().index_of(v);
            if j < a.vertices().len() {
                assert(a.vertices()[j] == v);
            }
        }
    }

    /// The edges of `v` after both endpoints of `edge` were made vertices
    /// and `edge` was appended to the list of its source.
    proof fn lemma_out_after(a: Graph, b: Graph, c: Graph, d: Graph, v: u32, edge: Edge, i: int)
        requires
            a.wf(),
            b.wf(),
            c.wf(),
            d.wf(),
            b.vertices() == with_vertex(a.vertices(), edge.from),
            forall|j: int| 0 <= j < a.vertices().len() ==> b.edges_of(j) == a.edges_of(j),
            !a.vertices().contains(edge.from) ==> b.edges_of(a.vertices().len() as int) == Seq::<
                Edge,
            >::empty(),
            c.vertices() == with_vertex(b.vertices(), edge.to),
            forall|j: int| 0 <= j < b.vertices().len() ==> c.edges_of(j) == b.edges_of(j),
            !b.vertices().contains(edge.to) ==> c.edges_of(b.vertices().len() as int) == Seq::<
                Edge,
            >::empty(),
            0 <= i < c.vertices().len(),
            c.vertices()[i] == edge.from,
            d.vertices() == c.vertices(),
            d.edges_of(i) == c.edges_of(i).push(edge),
            forall|j: int|
                0 <= j < c.vertices().len() && j != i ==> d.edges_of(j) == c.edges_of(j),
        ensures
            d.out(v) == if v == edge.from {
                a.out(v).push(edge)
            } else {
                a.out(v)
            },
    {
        Self::lemma_out_grow(a, b, v, edge.from);
        Self::lemma_out_grow(b, c, v, edge.to);
        if c.vertices().contains(v) {
            let j = c.vertices().index_of(v);
            d.lemma_position_unique(v, j);
            c.lemma_position_unique(edge.from, i);
        }
    }

    /// Inserts an edge and its reverse, which models an undirected edge.
    pub fn add_adj_both(&mut self, edge: Edge)
        requires
            old(self).wf(),
        ensures
            final(self).wf(),
            final(self).vertices() == with_vertex(
                with_vertex(old(self).vertices(), edge.from),
                edge.to,
            ),
            forall|v: u32|
                #[trigger] final(self).out(v) == {
                    let forward = if v == edge.from {
                        old(self).out(v).push(edge)
                    } else {
                        old(self).out(v)
                    };
                    if v == edge.to {
                        forward.push(edge.reversed())
                    } else {
                        forward
                    }
                },
    {
        let i = self.ensure_vertex(edge.from);
        let ghost b = *self;
        let j = self.ensure_vertex(edge.to);
        let ghost c = *self;
        self.push_edge(i, edge);
        let ghost d = *self;
        assert(self.vertices()[i as int] == edge.from);
        self.push_edge(j, edge.reverse());
        proof {
            assert forall|v: u32|
                #[trigger] self.out(v) == {
                    let forward = if v == edge.from {
                        old(self).out(v).push(edge)
                    } else {
                        old(self).out(v)
                    };
                    if v == edge.to {
                        forward.push(edge.reversed())
                    } else {
                        forward
                    }
                } by {
                Self::lemma_out_after(*old(self), b, c, d, v, edge, i as int);
                if d.vertices().contains(v) {
                    let k = d.vertices().index_of(v);
                    self.lemma_position_unique(v, k);
                    d.lemma_position_unique(edge.to, j as int);
                }
            }
        }
    }
}

/// The edges of the first `i` vertices, vertex by vertex in the graph's
/// order, each vertex's edges in the order in which they were inserted.
pub open spec fn edges_upto(g: Graph, i: nat) -> Seq<Edge>
    decreases i,
{
    if i == 0 {
        Seq::empty()
    } else {
        edges_upto(g, (i - 1) as nat) + g.edges_of(i - 1)
    }
}

/// All edges of the graph in storage order.
pub open spec fn all_edges(g: Graph) -> Seq<Edge> {
    edges_upto(g, g.vertices().len())
}

/// A sequence of vertices, such as the order in which a traversal found them.
#[derive(Debug)]
pub struct Vertices(pub Vec<u32>);

impl View for Vertices {
    type V = Seq<u32>;

    open spec fn view(&self) -> Seq<u32> {
        self.0@
    }
}

impl Vertices {
    /// The empty sequence.
    pub fn new() -> (r: Vertices)
        ensures
            r@ == Seq::<u32>::empty(),
    {
        Vertices(Vec::new())
    }

    /// Appends `vert`.
    pub fn push(&mut self, vert: u32)
        ensures
            final(self)@ == old(self)@.push(vert),
    {
        self.0.push(vert);
    }
}

} // verus!
