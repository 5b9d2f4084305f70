//! The adjacency-list graph and the value types shared by the analyses.

use std::collections::{HashMap, HashSet};
use vstd::prelude::*;

verus! {

/// One directed arc. An undirected connection is stored as two arcs.
#[derive(Debug, Clone, Copy, PartialEq, Eq, Structural, PartialOrd, Ord, Hash)]
pub struct Edge {
    pub from: u32,
    pub to: u32,
}

/// Outcome of a node lookup.
#[derive(Debug, Clone, Copy, PartialEq, Eq, Structural)]
pub enum GraphOperationResult {
    Success,
    NodeNotFound(u32),
}

/// An arc density, kept as the exact fraction `numerator / denominator`.
///
/// The numerator is an arc count. The denominator is twice a node count, or 1
/// for an empty node set, so it is never 0.
#[derive(Debug, Clone, Copy, PartialEq, Eq, Structural)]
pub struct Density {
    pub numerator: u64,
    pub denominator: u64,
}

/// A node set together with the density of the arcs it induces.
#[derive(Debug)]
pub struct Subgraph {
    pub nodes: HashSet<u32>,
    pub density: Density,
}

/// Adjacency lists keyed by node identifier. Neighbour lists keep insertion
/// order and may hold duplicates.
#[derive(Debug)]
pub struct Graph {
    pub nodes: HashMap<u32, Vec<u32>>,
}

/// The neighbour list of `v` in the adjacency model `g`; empty if `v` has no entry.
pub open spec fn neighbors(g: Map<u32, Seq<u32>>, v: u32) -> Seq<u32> {
    if g.contains_key(v) {
        g[v]
    } else {
        Seq::empty()
    }
}

/// Whether `g` stores an arc from `a` to `b`.
pub open spec fn has_arc(g: Map<u32, Seq<u32>>, a: u32, b: u32) -> bool {
    neighbors(g, a).contains(b)
}

/// The adjacency model after one `add_edge`: `edge.to` is appended to the list
/// of `edge.from`, and `edge.to` gets an empty entry if it had none.
pub open spec fn with_arc(g: Map<u32, Seq<u32>>, edge: Edge) -> Map<u32, Seq<u32>> {
    let g1 = g.insert(edge.from, neighbors(g, edge.from).push(edge.to));
    if g1.contains_key(edge.to) {
        g1
    } else {
        g1.insert(edge.to, Seq::empty())
    }
}

/// Whether every arc of `g` is stored in both directions.
pub open spec fn is_symmetric(g: Map<u32, Seq<u32>>) -> bool {
    forall|a: u32, b: u32| has_arc(g, a, b) ==> has_arc(g, b, a)
}

/// The arc in the opposite direction.
pub open spec fn reversed(e: Edge) -> Edge {
    Edge { from: e.to, to: e.from }
}

/// The adjacency model after storing the arcs of a sequence, in order.
pub open spec fn with_arcs(g: Map<u32, Seq<u32>>, arcs: Seq<Edge>) -> Map<u32, Seq<u32>>
    decreases arcs.len(),
{
    if arcs.len() == 0 {
        g
    } else {
        with_arc(with_arcs(g, arcs.drop_last()), arcs.last())
    }
}

/// Every node named in a neighbour list has an entry of its own.
pub open spec fn closed_under_arcs(g: Map<u32, Seq<u32>>) -> bool {
    forall|a: u32, b: u32| has_arc(g, a, b) ==> g.contains_key(b)
}

impl View for Graph {
    type V = Map<u32, Seq<u32>>;

    open spec fn view(&self) -> Map<u32, Seq<u32>> {
        Map::new(|k: u32| self.nodes@.contains_key(k), |k: u32| self.nodes@[k]@)
    }
}

impl Density {
    /// The fraction is strictly greater than `other`.
    pub open spec fn exceeds(self, other: Density) -> bool {
        self.numerator * other.denominator > other.numerator * self.denominator
    }

    /// The fraction is greater than or equal to `other`.
    pub open spec fn at_least(self, other: Density) -> bool {
        self.numerator * other.denominator >= other.numerator * self.denominator
    }

    /// Compares two densities exactly, by cross-multiplication.
    pub fn is_greater_than(&self, other: &Density) -> (greater: bool)
        ensures
            greater == self.exceeds(*other),
    {
        let left: u128 = widening_product(self.numerator, other.denominator);
        let right: u128 = widening_product(other.numerator, self.denominator);
        left > right
    }

    /// Whether the density is zero.
    pub fn is_zero(&self) -> (zero: bool)
        ensures
            zero == (self.numerator == 0),
    {
        self.numerator == 0
    }
}

/// The product of two 64-bit numbers, which always fits in 128 bits.
fn widening_product(a: u64, b: u64) -> (p: u128)
    ensures
        p == a * b,
{
    assert(a * b <= 0xffff_ffff_ffff_ffff * 0xffff_ffff_ffff_ffff) by (nonlinear_arith)
        requires
            0 <= a <= 0xffff_ffff_ffff_ffff,
            0 <= b <= 0xffff_ffff_ffff_ffff,
    ;
    (a as u128) * (b as u128)
}

impl Graph {
    /// An empty graph.
    pub fn new() -> (g: Self)
        ensures
            g@ == Map::<u32, Seq<u32>>::empty(),
    {
        let g = Graph { nodes: HashMap::new() };
        assert(g@ =~= Map::<u32, Seq<u32>>::empty());
        g
    }

    /// The graph that holds the given arcs, stored in order.
    ///
    /// It has an arc from `a` to `b` exactly where the list has one, and an
    /// entry for exactly the nodes that the list names.
    pub fn from_edges(edges: &[Edge]) -> (g: Self)
        ensures
            g@ == with_arcs(Map::empty(), edges@),
            closed_under_arcs(g@),
            forall|a: u32, b: u32| has_arc(g@, a, b) <==> edges@.contains(Edge { from: a, to: b }),
            forall|v: u32|
                g@.contains_key(v) <==> exists|i: int|
                    0 <= i < edges@.len() && ((#[trigger] edges@[i]).from == v || edges@[i].to
                        == v),
    {
        let mut g = Graph::new();
        let mut i: usize = 0;
        proof {
            assert(edges@.take(0) =~= Seq::<Edge>::empty());
            assert forall|a: u32, b: u32| !has_arc(g@, a, b) by {
                assert(neighbors(g@, a) =~= Seq::<u32>::empty());
            }
        }
        while i < edges.len()
            invariant
                i <= edges.len(),
                g@ == with_arcs(Map::empty(), edges@.take(i as int)),
                closed_under_arcs(g@),
                forall|a: u32, b: u32|
                    has_arc(g@, a, b) <==> edges@.take(i as int).contains(Edge { from: a, to: b }),
                forall|v: u32|
                    g@.contains_key(v) <==> exists|k: int|
                        0 <= k < i && ((#[trigger] edges@[k]).from == v || edges@[k].to == v),
            decreases edges.len() - i,
        {
            let ghost before = g@;
            let edge = edges[i];
            g.add_edge(edge);
            proof {
                let shorter = edges@.take(i as int);
                let longer = edges@.take(i + 1);
                assert(longer.drop_last() =~= shorter);
                assert(longer.last() == edge);
                assert forall|a: u32, b: u32|
                    has_arc(g@, a, b) <==> longer.contains(Edge { from: a, to: b }) by {
                    crate::facts::lemma_take_next_contains(edges@, i as int, Edge { from: a, to: b });
                    assert(has_arc(before, a, b) <==> shorter.contains(Edge { from: a, to: b }));
                    if a == edge.from {
                        let list = neighbors(before, a);
                        let grown = list.push(edge.to);
                        assert(neighbors(g@, a) == grown);
                        if grown.contains(b) {
                            let k = choose|k: int| 0 <= k < grown.len() && grown[k] == b;
                            if k < list.len() {
                                assert(list[k] == b);
                            }
                        }
                        if list.contains(b) {
                            let k = choose|k: int| 0 <= k < list.len() && list[k] == b;
                            assert(grown[k] == b);
                        }
                        if b == edge.to {
                            assert(grown[list.len() as int] == b);
                        }
                    } else {
                        assert(neighbors(g@, a) =~= neighbors(before, a));
                    }
                }
                assert forall|v: u32|
                    g@.contains_key(v) <==> exists|k: int|
                        0 <= k < i + 1 && ((#[trigger] edges@[k]).from == v || edges@[k].to
                            == v) by {
                    if before.contains_key(v) {
                        let k = choose|k: int|
                            0 <= k < i && ((#[trigger] edges@[k]).from == v || edges@[k].to == v);
                        assert(0 <= k < i + 1);
                    }
                    if v == edge.from || v == edge.to {
                        assert(edges@[i as int].from == v || edges@[i as int].to == v);
                    }
                }
            }
            i += 1;
        }
        proof {
            assert(edges@.take(i as int) =~= edges@);
        }
        g
    }

    /// Stores the arc `edge.from -> edge.to`. The reverse arc is not added.
    pub fn add_edge(&mut self, edge: Edge)
        ensures
            final(self)@ == with_arc(old(self)@, edge),
            closed_under_arcs(old(self)@) ==> closed_under_arcs(final(self)@),
    {
        broadcast use vstd::std_specs::hash::group_hash_axioms;

        let mut list: Vec<u32> = match self.nodes.remove(&edge.from) {
            Some(existing) => existing,
            None => Vec::new(),
        };
        list.push(edge.to);
        self.nodes.insert(edge.from, list);
        if !self.nodes.contains_key(&edge.to) {
            self.nodes.insert(edge.to, Vec::new());
        }
        proof {
            assert(self@ =~= with_arc(old(self)@, edge));
            if closed_under_arcs(old(self)@) {
                assert forall|a: u32, b: u32| has_arc(self@, a, b) implies self@.contains_key(
                    b,
                ) by {
                    if a == edge.from {
                        let i = choose|i: int|
                            0 <= i < neighbors(self@, a).len() && neighbors(self@, a)[i] == b;
                        if i < neighbors(old(self)@, a).len() {
                            assert(neighbors(old(self)@, a)[i] == b);
                            assert(has_arc(old(self)@, a, b));
                        }
                    } else {
                        assert(neighbors(self@, a) =~= neighbors(old(self)@, a));
                        assert(has_arc(old(self)@, a, b));
                    }
                }
            }
        }
    }

    /// Reports whether `node_id` has an adjacency entry.
    pub fn find_node(&self, node_id: u32) -> (r: GraphOperationResult)
        ensures
            self@.contains_key(node_id) ==> r == GraphOperationResult::Success,
            !self@.contains_key(node_id) ==> r == GraphOperationResult::NodeNotFound(node_id),
    {
        broadcast use vstd::std_specs::hash::group_hash_axioms;

        if self.nodes.contains_key(&node_id) {
            GraphOperationResult::Success
        } else {
            GraphOperationResult::NodeNotFound(node_id)
        }
    }
}

} // verus!
