//! Weisfeiler-Leman colour refinement over graphs, as a sound-but-incomplete
//! isomorphism test and as a feature extractor for graph kernels.
//!
//! Each entry point refines node (or node-pair) labels round by round, sorts
//! the final label buffer and digests it into a single 64-bit invariant: a
//! value that depends only on the graph's structure, not on node numbering.
//! Equal invariants do not prove isomorphism, but unequal invariants prove
//! non-isomorphism.
use vstd::prelude::*;

pub mod graph;
pub mod graphwrapper;
pub mod hashing;
pub mod laws;
pub mod parse;
pub mod refine;
pub mod sorting;

use crate::graph::Graph;
use crate::graphwrapper::{GraphWrapper, OneWL, TwoWL};
use crate::refine::{
    applied_rounds_fixed, clamp_iters, history_of, invariant2_after, invariant_after, labels2_after,
    labels_after, stable2_at, stable_at, tri,
};

verus! {

/// The seed the convenience entry points fix for the digest.
pub const DEFAULT_SEED: u64 = 42;

/// The one-dimensional invariant in auto-stop mode: refinement runs until the
/// label partition stabilizes (the stabilizing round itself is detected but
/// not applied), then the labels are sorted and digested.
pub fn invariant_stable(graph: Graph) -> (r: u64)
    requires
        graph.wf(),
    ensures
        exists|k: nat|
            #![trigger labels_after(graph, DEFAULT_SEED, k)]
            k <= graph.spec_n() && (forall|j: nat|
                j < k ==> !stable_at(graph, DEFAULT_SEED, j)) && (stable_at(
                graph,
                DEFAULT_SEED,
                k,
            ) || k == graph.spec_n()) && r == invariant_after(graph, DEFAULT_SEED, k),
{
    let mut wrap: GraphWrapper<OneWL> = GraphWrapper::new(graph, DEFAULT_SEED, 0, true, false);
    wrap.run();
    wrap.get_results()
}

/// The two-dimensional ("2-FWL") invariant in auto-stop mode: strictly more
/// expressive than the one-dimensional variant, at quadratic-or-worse cost;
/// undirected graphs only.
pub fn invariant_2wl(graph: Graph) -> (r: u64)
    requires
        graph.wf(),
        !graph.spec_directed(),
        graph.spec_n() * graph.spec_n() <= usize::MAX,
    ensures
        exists|k: nat|
            #![trigger labels2_after(graph, DEFAULT_SEED, k)]
            k <= tri(graph.spec_n() as int) && (forall|j: nat|
                j < k ==> !stable2_at(graph, DEFAULT_SEED, j)) && (stable2_at(
                graph,
                DEFAULT_SEED,
                k,
            ) || k == tri(graph.spec_n() as int)) && r == invariant2_after(graph, DEFAULT_SEED, k),
{
    let mut wrap: GraphWrapper<TwoWL> = GraphWrapper::new_2wl(graph, DEFAULT_SEED, 0, true, false);
    wrap.run();
    wrap.get_results()
}

/// The one-dimensional invariant after a fixed iteration budget: a request of
/// `0`, or one exceeding the node count, is clamped to one less than the node
/// count; one fewer round than the budget is actually applied.
pub fn invariant_iters(graph: Graph, n_iters: usize) -> (r: u64)
    requires
        graph.wf(),
    ensures
        r == invariant_after(
            graph,
            DEFAULT_SEED,
            applied_rounds_fixed(clamp_iters(n_iters as int, graph.spec_n() as int)),
        ),
{
    let mut wrap: GraphWrapper<OneWL> = GraphWrapper::new(graph, DEFAULT_SEED, n_iters, false, false);
    wrap.run();
    wrap.get_results()
}

/// The two-dimensional invariant after a fixed iteration budget, clamped
/// against the pair-index space; undirected graphs only.
pub fn iter_2wl(graph: Graph, n_iters: usize) -> (r: u64)
    requires
        graph.wf(),
        !graph.spec_directed(),
        graph.spec_n() * graph.spec_n() <= usize::MAX,
    ensures
        r == invariant2_after(
            graph,
            DEFAULT_SEED,
            applied_rounds_fixed(clamp_iters(n_iters as int, tri(graph.spec_n() as int))),
        ),
{
    let mut wrap: GraphWrapper<TwoWL> = GraphWrapper::new_2wl(
        graph,
        DEFAULT_SEED,
        n_iters,
        false,
        false,
    );
    wrap.run();
    wrap.get_results()
}

/// The per-node label history over a fixed iteration budget: for each node,
/// its initial label followed by its label after every applied round. Two
/// calls with the same arguments return the same histories.
pub fn neighbourhood_hash(graph: Graph, n_iters: usize) -> (r: Vec<Vec<u64>>)
    requires
        graph.wf(),
    ensures
        ({
            let h = history_of(
                graph,
                DEFAULT_SEED,
                applied_rounds_fixed(clamp_iters(n_iters as int, graph.spec_n() as int)),
            );
            r@.len() == h.len() && forall|i: int| 0 <= i < h.len() ==> (#[trigger] r@[i])@ == h[i]
        }),
{
    let mut wrap: GraphWrapper<OneWL> = GraphWrapper::new(graph, DEFAULT_SEED, n_iters, false, true);
    wrap.run();
    wrap.into_histories()
}

/// The per-node label history in auto-stop mode: as with [`invariant_stable`], the
/// stabilizing round contributes no entry, since it refines nothing.
pub fn neighbourhood_stable(graph: Graph) -> (r: Vec<Vec<u64>>)
    requires
        graph.wf(),
    ensures
        exists|k: nat|
            #![trigger labels_after(graph, DEFAULT_SEED, k)]
            k <= graph.spec_n() && (forall|j: nat|
                j < k ==> !stable_at(graph, DEFAULT_SEED, j)) && (stable_at(
                graph,
                DEFAULT_SEED,
                k,
            ) || k == graph.spec_n()) && r@.len() == history_of(graph, DEFAULT_SEED, k).len() && (
            forall|i: int|
                0 <= i < r@.len() ==> (#[trigger] r@[i])@ == history_of(graph, DEFAULT_SEED, k)[i]),
{
    let mut wrap: GraphWrapper<OneWL> = GraphWrapper::new(graph, DEFAULT_SEED, 0, true, true);
    wrap.run();
    wrap.into_histories()
}

} // verus!
