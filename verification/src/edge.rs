//! Directed, optionally weighted edges and ordered edge lists.

use std::cmp::Ordering;
use std::slice::Iter;
use vstd::prelude::*;
use vstd::std_specs::slice::into_iter_elts;

verus! {

/// A directed edge between two vertices, with an optional weight.
#[derive(Clone, Copy, Debug, Hash, PartialEq, Eq, Structural)]
pub struct Edge {
    pub value: Option<u32>,
    pub from: u32,
    pub to: u32,
}

impl Edge {
    /// What traversing the edge costs: its weight, or 1 when it has none.
    pub open spec fn cost(self) -> nat {
        match self.value {
            Some(v) => v as nat,
            None => 1,
        }
    }

    /// The position of the edge's weight in the order used to sort edges: a
    /// missing weight comes before every weight.
    pub open spec fn value_rank(self) -> int {
        match self.value {
            Some(v) => v as int,
            None => -1,
        }
    }

    /// The edge with its endpoints exchanged and the same weight.
    pub open spec fn reversed(self) -> Edge {
        Edge { value: self.value, from: self.to, to: self.from }
    }

    /// The edge between the same endpoints that carries no weight.
    pub open spec fn unweighted(self) -> Edge {
        Edge { value: None, from: self.from, to: self.to }
    }

    /// Whether two edges join the same unordered pair of vertices with the
    /// same weight.
    pub open spec fn spec_same_ignore_direction(self, other: Edge) -> bool {
        self == other || self == other.reversed()
    }

    /// An edge from `from` to `to` with the weight `value`.
    pub fn new_weighted(value: u32, from: u32, to: u32) -> (e: Edge)
        ensures
            e == (Edge { value: Some(value), from, to }),
    {
        Edge { value: Some(value), from, to }
    }

    /// An edge from `from` to `to` without a weight.
    pub fn new(from: u32, to: u32) -> (e: Edge)
        ensures
            e == (Edge { value: None, from, to }),
    {
        Edge { value: None, from, to }
    }

    /// The edge in the opposite direction, with the same weight.
    pub fn reverse(&self) -> (e: Edge)
        ensures
            e == self.reversed(),
    {
        Edge { value: self.value, from: self.to, to: self.from }
    }

    /// The cost of the edge as a machine integer.
    pub fn weight_or_one(&self) -> (c: u32)
        ensures
            c == self.cost(),
    {
        match self.value {
            Some(v) => v,
            None => 1,
        }
    }

    /// Orders two edges by weight; an edge without a weight sorts first.
    pub fn compare_values(&self, other: &Edge) -> (r: Ordering)
        ensures
            r == Ordering::Less <==> self.value_rank() < other.value_rank(),
            r == Ordering::Equal <==> self.value_rank() == other.value_rank(),
            r == Ordering::Greater <==> self.value_rank() > other.value_rank(),
    {
        match (self.value, other.value) {
            (None, None) => Ordering::Equal,
            (None, Some(_)) => Ordering::Less,
            (Some(_), None) => Ordering::Greater,
            (Some(a), Some(b)) => if a < b {
                Ordering::Less
            } else if a == b {
                Ordering::Equal
            } else {
                Ordering::Greater
            },
        }
    }

    /// Whether this edge sorts strictly behind `other` by weight.
    pub fn heavier_than(&self, other: &Edge) -> (r: bool)
        ensures
            r == (self.value_rank() > other.value_rank()),
    {
        match self.compare_values(other) {
            Ordering::Greater => true,
            _ => false,
        }
    }

    /// Whether the two edges join the same unordered pair of vertices with
    /// the same weight.
    pub fn same_ignore_direction(&self, other: &Edge) -> (r: bool)
        ensures
            r == self.spec_same_ignore_direction(*other),
    {
        let mut result = *self == *other;
        if !result {
            if self.to == other.from && self.from == other.to {
                result = self.value == other.value;
            } else {
                result = false;
            }
        }
        result
    }
}

/// The edges that leave one vertex, in insertion order.
#[derive(Debug)]
pub enum Edges {
    Empty,
    Edges(Vec<Edge>),
}

impl View for Edges {
    type V = Seq<Edge>;

    open spec fn view(&self) -> Seq<Edge> {
        match self {
            Edges::Empty => Seq::empty(),
            Edges::Edges(v) => v@,
        }
    }
}

impl Edges {
    /// The empty list.
    pub fn new() -> (r: Edges)
        ensures
            r == Edges::Empty,
            r@ == Seq::<Edge>::empty(),
    {
        Edges::Empty
    }

    /// The list that holds `edge` alone.
    pub fn from_edge(edge: Edge) -> (r: Edges)
        ensures
            r@ == seq![edge],
    {
        let mut v = Vec::new();
        v.push(edge);
        Edges::Edges(v)
    }

    /// Reverses the order of the edges in place.
    pub fn reverse(&mut self)
        ensures
            final(self)@ == old(self)@.reverse(),
    {
        match self {
            Edges::Empty => {},
            Edges::Edges(e) => {
                let n = e.len();
                let ghost orig = e@;
                let mut i: usize = 0;
                while i < n / 2
                    invariant
                        n == e.len(),
                        n == orig.len(),
                        i <= n / 2,
                        forall|k: int| 0 <= k < i ==> e@[k] == orig[n - 1 - k],
                        forall|k: int| 0 <= k < i ==> e@[n - 1 - k] == orig[k],
                        forall|k: int| i <= k < n - i ==> e@[k] == orig[k],
                    decreases n / 2 - i,
                {
                    let a = e[i];
                    let b = e[n - 1 - i];
                    e[i] = b;
                    e[n - 1 - i] = a;
                    i += 1;
                }
                assert(e@ =~= orig.reverse());
            },
        }
    }

    /// Appends `edge`.
    pub fn add_edge(&mut self, edge: Edge)
        ensures
            final(self)@ == old(self)@.push(edge),
    {
        match self {
            Edges::Empty => {
                let mut edges: Vec<Edge> = Vec::new();
                edges.push(edge);
                *self = Edges::Edges(edges);
                assert(self@ =~= Seq::<Edge>::empty().push(edge));
            },
            Edges::Edges(v) => {
                v.push(edge);
            },
        }
    }

    /// The number of edges.
    pub fn len(&self) -> (n: usize)
        ensures
            n == self@.len(),
    {
        match self {
            Edges::Empty => 0,
            Edges::Edges(e) => e.len(),
        }
    }

    /// The edge at position `i`.
    pub fn get(&self, i: usize) -> (e: Edge)
        requires
            i < self@.len(),
        ensures
            e == self@[i as int],
    {
        match self {
            Edges::Empty => Edge { value: None, from: 0, to: 0 },
            Edges::Edges(e) => e[i],
        }
    }

    /// An iterator over the edges in order.
    pub fn iter(&self) -> (it: Iter<'_, Edge>)
        ensures
            into_iter_elts(it) == self@,
    {
        match self {
            Edges::Empty => {
                let empty: &[Edge] = &[];
                empty.iter()
            },
            Edges::Edges(edges) => edges.as_slice().iter(),
        }
    }
}

} // verus!
