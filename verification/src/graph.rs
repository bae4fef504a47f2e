//! The graph model the refinement engine operates on.
//!
//! Nodes are the dense indices `0..n`. Edges are stored as an ordered list of
//! endpoint pairs; parallel edges and self-loops are allowed. A directed graph
//! reads an edge `(a, b)` as the arc `a -> b`; an undirected graph reads it as
//! an unordered connection between `a` and `b`.
use vstd::prelude::*;

verus! {

/// Which incidence relation a degree count follows.
pub enum DegreeMode {
    Undirected,
    Incoming,
    Outgoing,
}

/// A graph over the node indices `0..n`, directed or undirected, possibly with
/// parallel edges and self-loops.
pub struct Graph {
    directed: bool,
    n: usize,
    edges: Vec<(usize, usize)>,
}

impl Graph {
    /// Whether edges are read as directed arcs.
    pub closed spec fn spec_directed(self) -> bool {
        self.directed
    }

    /// The number of nodes.
    pub closed spec fn spec_n(self) -> nat {
        self.n as nat
    }

    /// The edge list, in insertion order.
    pub closed spec fn spec_edges(self) -> Seq<(usize, usize)> {
        self.edges@
    }

    /// The node count always fits the machine's word.
    pub proof fn lemma_n_fits(self)
        ensures
            self.spec_n() <= usize::MAX,
    {
    }

    /// Every edge endpoint is a valid node index.
    pub open spec fn wf(self) -> bool {
        forall|k: int|
            0 <= k < self.spec_edges().len() ==> (#[trigger] self.spec_edges()[k]).0
                < self.spec_n() && self.spec_edges()[k].1 < self.spec_n()
    }

    /// An empty graph on `n` nodes.
    pub fn new(n: usize, directed: bool) -> (g: Graph)
        ensures
            g.spec_n() == n,
            g.spec_directed() == directed,
            g.spec_edges() == Seq::<(usize, usize)>::empty(),
            g.wf(),
    {
        Graph { directed, n, edges: Vec::new() }
    }

    /// Appends one edge between existing nodes.
    pub fn add_edge(&mut self, a: usize, b: usize)
        requires
            a < old(self).spec_n(),
            b < old(self).spec_n(),
        ensures
            final(self).spec_n() == old(self).spec_n(),
            final(self).spec_directed() == old(self).spec_directed(),
            final(self).spec_edges() == old(self).spec_edges().push((a, b)),
            old(self).wf() ==> final(self).wf(),
    {
        self.edges.push((a, b));
        proof {
            if old(self).wf() {
                assert forall|k: int|
                    0 <= k < self.spec_edges().len() implies (#[trigger] self.spec_edges()[k]).0
                    < self.spec_n() && self.spec_edges()[k].1 < self.spec_n() by {
                    if k < self.spec_edges().len() - 1 {
                        assert(self.spec_edges()[k] == old(self).spec_edges()[k]);
                    }
                }
            }
        }
    }

    pub fn node_count(&self) -> (r: usize)
        ensures
            r == self.spec_n(),
    {
        self.n
    }

    pub fn is_directed(&self) -> (r: bool)
        ensures
            r == self.spec_directed(),
    {
        self.directed
    }

    /// Builds a graph from an edge list, inferring the node count as one more
    /// than the largest endpoint mentioned; skipped indices become isolated
    /// nodes.
    pub fn from_edges(directed: bool, edges: Vec<(usize, usize)>) -> (g: Graph)
        requires
            forall|k: int|
                0 <= k < edges@.len() ==> (#[trigger] edges@[k]).0 < usize::MAX && edges@[k].1
                    < usize::MAX,
        ensures
            g.spec_directed() == directed,
            g.spec_edges() == edges@,
            g.spec_n() == needed_nodes(edges@),
            g.wf(),
    {
        let mut n: usize = 0;
        let mut k: usize = 0;
        while k < edges.len()
            invariant
                k <= edges@.len(),
                n == needed_nodes(edges@.take(k as int)),
                forall|j: int|
                    0 <= j < edges@.len() ==> (#[trigger] edges@[j]).0 < usize::MAX && edges@[j].1
                        < usize::MAX,
            decreases edges@.len() - k,
        {
            let (a, b) = edges[k];
            proof {
                assert(edges@.take(k as int + 1).drop_last() == edges@.take(k as int));
                assert(edges@.take(k as int + 1).last() == edges@[k as int]);
            }
            if a + 1 > n {
                n = a + 1;
            }
            if b + 1 > n {
                n = b + 1;
            }
            k += 1;
        }
        proof {
            assert(edges@.take(edges@.len() as int) == edges@);
        }
        let g = Graph { directed, n, edges };
        proof {
            lemma_needed_nodes_bounds(g.spec_edges());
        }
        g
    }
}

/// One more than the largest node index an edge list mentions; `0` for an
/// empty list.
pub open spec fn needed_nodes(edges: Seq<(usize, usize)>) -> int
    decreases edges.len(),
{
    if edges.len() == 0 {
        0
    } else {
        let rest = needed_nodes(edges.drop_last());
        let e = edges.last();
        let m = if e.0 >= e.1 {
            e.0 + 1
        } else {
            e.1 + 1
        };
        if m > rest {
            m
        } else {
            rest
        }
    }
}

pub proof fn lemma_needed_nodes_bounds(edges: Seq<(usize, usize)>)
    ensures
        forall|k: int|
            0 <= k < edges.len() ==> (#[trigger] edges[k]).0 < needed_nodes(edges) && edges[k].1
                < needed_nodes(edges),
    decreases edges.len(),
{
    if edges.len() > 0 {
        lemma_needed_nodes_bounds(edges.drop_last());
        assert(forall|k: int|
            0 <= k < edges.len() - 1 ==> edges.drop_last()[k] == #[trigger] edges[k]);
        assert(needed_nodes(edges) >= needed_nodes(edges.drop_last()));
    }
}

/// The labels of `v`'s neighbours under an undirected reading, one entry per
/// incident edge in edge order; a self-loop contributes `v`'s own label once.
pub open spec fn nbr_labels_undir(edges: Seq<(usize, usize)>, labels: Seq<u64>, v: int) -> Seq<u64>
    decreases edges.len(),
{
    if edges.len() == 0 {
        Seq::empty()
    } else {
        let rest = nbr_labels_undir(edges.drop_last(), labels, v);
        let e = edges.last();
        if e.0 == v {
            rest.push(labels[e.1 as int])
        } else if e.1 == v {
            rest.push(labels[e.0 as int])
        } else {
            rest
        }
    }
}

/// The labels of the sources of `v`'s incoming arcs, in edge order.
pub open spec fn in_labels(edges: Seq<(usize, usize)>, labels: Seq<u64>, v: int) -> Seq<u64>
    decreases edges.len(),
{
    if edges.len() == 0 {
        Seq::empty()
    } else {
        let rest = in_labels(edges.drop_last(), labels, v);
        let e = edges.last();
        if e.1 == v {
            rest.push(labels[e.0 as int])
        } else {
            rest
        }
    }
}

/// The labels of the targets of `v`'s outgoing arcs, in edge order.
pub open spec fn out_labels(edges: Seq<(usize, usize)>, labels: Seq<u64>, v: int) -> Seq<u64>
    decreases edges.len(),
{
    if edges.len() == 0 {
        Seq::empty()
    } else {
        let rest = out_labels(edges.drop_last(), labels, v);
        let e = edges.last();
        if e.0 == v {
            rest.push(labels[e.1 as int])
        } else {
            rest
        }
    }
}

/// `v`'s degree under the undirected reading: one per incident edge, a
/// self-loop counting once, parallel edges counting separately.
pub open spec fn degree_undir(edges: Seq<(usize, usize)>, v: int) -> int
    decreases edges.len(),
{
    if edges.len() == 0 {
        0
    } else {
        let rest = degree_undir(edges.drop_last(), v);
        let e = edges.last();
        if e.0 == v || e.1 == v {
            rest + 1
        } else {
            rest
        }
    }
}

/// How many arcs enter `v`.
pub open spec fn in_degree(edges: Seq<(usize, usize)>, v: int) -> int
    decreases edges.len(),
{
    if edges.len() == 0 {
        0
    } else {
        in_degree(edges.drop_last(), v) + if edges.last().1 == v {
            1int
        } else {
            0int
        }
    }
}

/// How many arcs leave `v`.
pub open spec fn out_degree(edges: Seq<(usize, usize)>, v: int) -> int
    decreases edges.len(),
{
    if edges.len() == 0 {
        0
    } else {
        out_degree(edges.drop_last(), v) + if edges.last().0 == v {
            1int
        } else {
            0int
        }
    }
}

pub proof fn lemma_degree_bounds(edges: Seq<(usize, usize)>, v: int)
    ensures
        0 <= degree_undir(edges, v) <= edges.len(),
        0 <= in_degree(edges, v) <= edges.len(),
        0 <= out_degree(edges, v) <= edges.len(),
    decreases edges.len(),
{
    if edges.len() > 0 {
        lemma_degree_bounds(edges.drop_last(), v);
    }
}

/// How many edges connect `i` and `j` in either orientation; for `i == j`,
/// each self-loop counts once.
pub open spec fn edges_between(edges: Seq<(usize, usize)>, i: int, j: int) -> int
    decreases edges.len(),
{
    if edges.len() == 0 {
        0
    } else {
        let rest = edges_between(edges.drop_last(), i, j);
        let e = edges.last();
        if (e.0 == i && e.1 == j) || (e.0 == j && e.1 == i) {
            rest + 1
        } else {
            rest
        }
    }
}

pub proof fn lemma_edges_between_bound(edges: Seq<(usize, usize)>, i: int, j: int)
    ensures
        0 <= edges_between(edges, i, j) <= edges.len(),
    decreases edges.len(),
{
    if edges.len() > 0 {
        lemma_edges_between_bound(edges.drop_last(), i, j);
    }
}

impl Graph {
    /// Collects the current labels of `v`'s neighbours under the undirected
    /// reading, in edge order.
    pub fn collect_nbr_labels_undir(&self, labels: &Vec<u64>, v: usize) -> (out: Vec<u64>)
        requires
            self.wf(),
            labels@.len() == self.spec_n(),
            v < self.spec_n(),
        ensures
            out@ == nbr_labels_undir(self.spec_edges(), labels@, v as int),
    {
        let mut out: Vec<u64> = Vec::new();
        let mut k: usize = 0;
        while k < self.edges.len()
            invariant
                k <= self.spec_edges().len(),
                self.wf(),
                labels@.len() == self.spec_n(),
                v < self.spec_n(),
                out@ == nbr_labels_undir(self.spec_edges().take(k as int), labels@, v as int),
            decreases self.spec_edges().len() - k,
        {
            let (a, b) = self.edges[k];
            proof {
                assert(self.spec_edges().take(k as int + 1).drop_last() == self.spec_edges().take(
                    k as int,
                ));
                assert(self.spec_edges().take(k as int + 1).last() == self.spec_edges()[k as int]);
            }
            if a == v {
                out.push(labels[b]);
            } else if b == v {
                out.push(labels[a]);
            }
            k += 1;
        }
        proof {
            assert(self.spec_edges().take(self.spec_edges().len() as int) == self.spec_edges());
        }
        out
    }

    /// Collects the current labels across `v`'s incoming or outgoing arcs, in
    /// edge order.
    pub fn collect_dir_labels(&self, labels: &Vec<u64>, v: usize, incoming: bool) -> (out: Vec<
        u64,
    >)
        requires
            self.wf(),
            labels@.len() == self.spec_n(),
            v < self.spec_n(),
        ensures
            incoming ==> out@ == in_labels(self.spec_edges(), labels@, v as int),
            !incoming ==> out@ == out_labels(self.spec_edges(), labels@, v as int),
    {
        let mut out: Vec<u64> = Vec::new();
        let mut k: usize = 0;
        while k < self.edges.len()
            invariant
                k <= self.spec_edges().len(),
                self.wf(),
                labels@.len() == self.spec_n(),
                v < self.spec_n(),
                incoming ==> out@ == in_labels(
                    self.spec_edges().take(k as int),
                    labels@,
                    v as int,
                ),
                !incoming ==> out@ == out_labels(
                    self.spec_edges().take(k as int),
                    labels@,
                    v as int,
                ),
            decreases self.spec_edges().len() - k,
        {
            let (a, b) = self.edges[k];
            proof {
                assert(self.spec_edges().take(k as int + 1).drop_last() == self.spec_edges().take(
                    k as int,
                ));
                assert(self.spec_edges().take(k as int + 1).last() == self.spec_edges()[k as int]);
            }
            if incoming {
                if b == v {
                    out.push(labels[a]);
                }
            } else {
                if a == v {
                    out.push(labels[b]);
                }
            }
            k += 1;
        }
        proof {
            assert(self.spec_edges().take(self.spec_edges().len() as int) == self.spec_edges());
        }
        out
    }

    /// Counts `v`'s incident edges under the undirected reading, or its
    /// incoming or outgoing arcs under the directed one.
    pub fn count_degree(&self, v: usize, mode: DegreeMode) -> (r: usize)
        requires
            self.wf(),
        ensures
            mode is Undirected ==> r == degree_undir(self.spec_edges(), v as int),
            mode is Incoming ==> r == in_degree(self.spec_edges(), v as int),
            mode is Outgoing ==> r == out_degree(self.spec_edges(), v as int),
    {
        proof {
            lemma_degree_bounds(self.spec_edges(), v as int);
        }
        let mut r: usize = 0;
        let mut k: usize = 0;
        while k < self.edges.len()
            invariant
                k <= self.spec_edges().len(),
                r <= k,
                mode is Undirected ==> r == degree_undir(
                    self.spec_edges().take(k as int),
                    v as int,
                ),
                mode is Incoming ==> r == in_degree(self.spec_edges().take(k as int), v as int),
                mode is Outgoing ==> r == out_degree(self.spec_edges().take(k as int), v as int),
            decreases self.spec_edges().len() - k,
        {
            let (a, b) = self.edges[k];
            proof {
                assert(self.spec_edges().take(k as int + 1).drop_last() == self.spec_edges().take(
                    k as int,
                ));
                assert(self.spec_edges().take(k as int + 1).last() == self.spec_edges()[k as int]);
            }
            let hit = match mode {
                DegreeMode::Undirected => a == v || b == v,
                DegreeMode::Incoming => b == v,
                DegreeMode::Outgoing => a == v,
            };
            if hit {
                r += 1;
            }
            k += 1;
        }
        proof {
            assert(self.spec_edges().take(self.spec_edges().len() as int) == self.spec_edges());
        }
        r
    }

    /// Counts the edges connecting `i` and `j` in either orientation.
    pub fn count_edges_between(&self, i: usize, j: usize) -> (r: usize)
        requires
            self.wf(),
        ensures
            r == edges_between(self.spec_edges(), i as int, j as int),
    {
        proof {
            lemma_edges_between_bound(self.spec_edges(), i as int, j as int);
        }
        let mut r: usize = 0;
        let mut k: usize = 0;
        while k < self.edges.len()
            invariant
                k <= self.spec_edges().len(),
                self.wf(),
                r == edges_between(self.spec_edges().take(k as int), i as int, j as int),
                r <= k,
            decreases self.spec_edges().len() - k,
        {
            let (a, b) = self.edges[k];
            proof {
                assert(self.spec_edges().take(k as int + 1).drop_last() == self.spec_edges().take(
                    k as int,
                ));
                assert(self.spec_edges().take(k as int + 1).last() == self.spec_edges()[k as int]);
            }
            if (a == i && b == j) || (a == j && b == i) {
                r += 1;
            }
            k += 1;
        }
        proof {
            assert(self.spec_edges().take(self.spec_edges().len() as int) == self.spec_edges());
        }
        r
    }
}

} // verus!
