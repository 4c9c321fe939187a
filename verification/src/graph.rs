//! Undirected multigraph over dense integer node ids.
//!
//! The adjacency structure is an arena: node `i`'s neighbours sit at index
//! `i`, in insertion order. That order is load-bearing: it encodes the
//! rotation system that face tracing reads.

use vstd::prelude::*;

verus! {

/// Dense, zero-based surrogate node identifier.
pub type NodeId = usize;

/// The sequence-of-sequences abstraction of a `Vec<Vec<usize>>`.
pub open spec fn seqs_of(s: Seq<Vec<usize>>) -> Seq<Seq<usize>> {
    Seq::new(s.len(), |i: int| s[i]@)
}

/// Every stored neighbour is a node of the graph.
pub open spec fn valid_adj(a: Seq<Seq<usize>>) -> bool {
    forall|i: int, j: int|
        0 <= i < a.len() && 0 <= j < a[i].len() ==> (#[trigger] a[i][j] as int) < a.len()
}

/// The neighbour list of `u`, empty when `u` is not a node.
pub open spec fn adj_of(a: Seq<Seq<usize>>, u: usize) -> Seq<usize> {
    if (u as int) < a.len() {
        a[u as int]
    } else {
        Seq::empty()
    }
}

/// `v` occurs in `u`'s neighbour list.
pub open spec fn edge_in(a: Seq<Seq<usize>>, u: usize, v: usize) -> bool {
    adj_of(a, u).contains(v)
}

/// The adjacency extended with empty neighbour lists up to length `n`.
pub open spec fn grow(a: Seq<Seq<usize>>, n: int) -> Seq<Seq<usize>> {
    Seq::new(
        if a.len() >= n {
            a.len()
        } else {
            n as nat
        },
        |i: int|
            if i < a.len() {
                a[i]
            } else {
                Seq::empty()
            },
    )
}

/// Effect of one undirected edge insertion: `to` is appended to `from`'s
/// list and then `from` to `to`'s list, after both lists exist.
pub open spec fn add_edge_model(a: Seq<Seq<usize>>, from: usize, to: usize) -> Seq<Seq<usize>> {
    let g = grow(grow(a, from as int + 1), to as int + 1);
    let g1 = g.update(from as int, g[from as int].push(to));
    g1.update(to as int, g1[to as int].push(from))
}

/// An undirected graph as insertion-ordered adjacency lists.
pub struct Graph {
    adjacency: Vec<Vec<usize>>,
}

impl View for Graph {
    type V = Seq<Seq<usize>>;

    closed spec fn view(&self) -> Seq<Seq<usize>> {
        seqs_of(self.adjacency@)
    }
}

/// Copies a list of node ids.
pub fn copy_ids(v: &Vec<usize>) -> (r: Vec<usize>)
    ensures
        r@ == v@,
{
    let mut r: Vec<usize> = Vec::new();
    for i in 0..v.len()
        invariant
            r@ == v@.subrange(0, i as int),
    {
        r.push(v[i]);
        assert(r@ =~= v@.subrange(0, i + 1 as int));
    }
    assert(r@ =~= v@);
    r
}

impl Graph {
    /// A graph with no nodes.
    pub fn new() -> (g: Graph)
        ensures
            g@ == Seq::<Seq<usize>>::empty(),
    {
        let g = Graph { adjacency: Vec::new() };
        proof {
            assert(g@ =~= Seq::<Seq<usize>>::empty());
        }
        g
    }

    /// Ensures `id` has a (possibly empty) neighbour list; idempotent.
    pub fn add_node(&mut self, id: usize)
        ensures
            final(self)@ == grow(old(self)@, id + 1),
            valid_adj(old(self)@) ==> valid_adj(final(self)@),
    {
        while self.adjacency.len() <= id
            invariant
                old(self)@.len() <= self@.len(),
                self@.len() <= if old(self)@.len() >= id + 1 {
                    old(self)@.len() as int
                } else {
                    id + 1
                },
                forall|i: int| 0 <= i < old(self)@.len() ==> self@[i] == old(self)@[i],
                forall|i: int|
                    old(self)@.len() <= i < self@.len() ==> self@[i] == Seq::<usize>::empty(),
            decreases id + 1 - self.adjacency.len(),
        {
            let ghost pre = self@;
            self.adjacency.push(Vec::new());
            proof {
                assert(self@ =~= pre.push(Seq::<usize>::empty()));
            }
        }
        proof {
            assert(self@ =~= grow(old(self)@, id + 1));
        }
    }

    /// Inserts an undirected edge, creating both endpoints as needed.
    /// Multi-edges and self-loops are permitted and never rejected.
    pub fn add_edge(&mut self, from: usize, to: usize)
        ensures
            final(self)@ == add_edge_model(old(self)@, from, to),
            valid_adj(old(self)@) ==> valid_adj(final(self)@),
    {
        self.add_node(from);
        self.add_node(to);
        let ghost g = self@;
        self.adjacency[from].push(to);
        proof {
            assert(self@ =~= g.update(from as int, g[from as int].push(to)));
        }
        let ghost g1 = self@;
        self.adjacency[to].push(from);
        proof {
            assert(self@ =~= g1.update(to as int, g1[to as int].push(from)));
            assert(self@ =~= add_edge_model(old(self)@, from, to));
            if valid_adj(old(self)@) {
                assert forall|i: int, j: int|
                    0 <= i < self@.len() && 0 <= j < self@[i].len() implies (
                #[trigger] self@[i][j] as int) < self@.len() by {
                    let g0 = grow(grow(old(self)@, from as int + 1), to as int + 1);
                    assert(valid_adj(g0));
                }
            }
        }
    }

    /// The neighbour list of `node` in insertion order; empty if unknown.
    pub fn get_neighbors(&self, node: usize) -> (r: Vec<usize>)
        ensures
            r@ == adj_of(self@, node),
    {
        if node < self.adjacency.len() {
            copy_ids(&self.adjacency[node])
        } else {
            Vec::new()
        }
    }

    /// Number of distinct node ids ever added.
    pub fn node_count(&self) -> (n: usize)
        ensures
            n == self@.len(),
    {
        self.adjacency.len()
    }
}

} // verus!
