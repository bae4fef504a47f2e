//! The refinement engine: label buffers, per-round recomputation,
//! stabilization detection, the iteration driver and the invariant finalizer.
use crate::graph::{in_degree, out_degree, DegreeMode, Graph};
use crate::hashing::hash_words;
use crate::refine::{
    applied_rounds_fixed, clamp_iters, consistent_relabel, finalized, flatten_pairs, history_of,
    init2_label, init_label, initial2_labels, initial_labels, labels2_after, labels_after,
    lemma_history_step, lemma_labels2_after_len, lemma_labels_after_len, lemma_pair_index_bounds,
    lemma_pair_index_decodes, lemma_tri_formula, lemma_tri_next, next2_label, next_label, pair_index,
    pair_row, row_of, col_of, stable2_at, stable_at, step2_labels, step_labels, tri, triple_pair,
};
use crate::sorting::{sort_words, sorted_pairs, sorted_words};
use vstd::pervasive::VecAdditionalExecFns;
use vstd::prelude::*;

verus! {

/// Marker for the refinement dimension an engine runs in.
pub trait WLdim {

}

/// One label per node.
pub struct OneWL;

/// One label per unordered node pair.
pub struct TwoWL;

impl WLdim for OneWL {

}

impl WLdim for TwoWL {

}

/// Canonical triangular pair index for an unordered pair of node indices:
/// the unordered pair `{left, right}` is stored at `tri(max) + min`.
pub fn get_label_index(left: usize, right: usize) -> (r: usize)
    requires
        left * left + left + right <= usize::MAX,
        right * right + right + left <= usize::MAX,
    ensures
        r == pair_index(left as int, right as int),
{
    let (a, b) = if right > left {
        (right, left)
    } else {
        (left, right)
    };
    proof {
        assert(a * a + a == a * (a + 1)) by (nonlinear_arith);
    }
    (a * a + a) / 2 + b
}

/// Holds the state needed to run one refinement: the graph, the seed, the
/// current and next label buffers, the stop policy and, if requested, the
/// per-node label history.
pub struct GraphWrapper<Wd: WLdim> {
    pub graph: Graph,
    seed: u64,
    labels: Vec<u64>,
    new_labels: Vec<u64>,
    niters: usize,
    check_stable: bool,
    get_subgraphs: bool,
    pub subgraphs: Option<Vec<Vec<u64>>>,
    dim: core::marker::PhantomData<Wd>,
}

impl<Wd: WLdim> GraphWrapper<Wd> {
    pub closed spec fn spec_graph(self) -> Graph {
        self.graph
    }

    pub closed spec fn spec_seed(self) -> u64 {
        self.seed
    }

    pub closed spec fn spec_labels(self) -> Seq<u64> {
        self.labels@
    }

    pub closed spec fn spec_new_labels(self) -> Seq<u64> {
        self.new_labels@
    }

    pub closed spec fn spec_niters(self) -> int {
        self.niters as int
    }

    pub closed spec fn spec_check_stable(self) -> bool {
        self.check_stable
    }

    pub closed spec fn spec_get_subgraphs(self) -> bool {
        self.get_subgraphs
    }

    pub closed spec fn spec_has_history(self) -> bool {
        self.subgraphs is Some
    }

    /// The recorded per-node label history, one sequence per node.
    pub closed spec fn spec_history(self) -> Seq<Seq<u64>> {
        match self.subgraphs {
            Option::Some(v) => Seq::new(v@.len(), |i: int| v@[i]@),
            Option::None => Seq::empty(),
        }
    }

    /// The configuration fields both engines leave untouched while running.
    pub open spec fn config_matches(self, other: Self) -> bool {
        &&& self.spec_graph() == other.spec_graph()
        &&& self.spec_seed() == other.spec_seed()
        &&& self.spec_niters() == other.spec_niters()
        &&& self.spec_check_stable() == other.spec_check_stable()
        &&& self.spec_get_subgraphs() == other.spec_get_subgraphs()
    }

    /// Decides whether the partition induced by the labels is unchanged: maps
    /// each distinct old label to the first new label observed for it, and
    /// reports stability exactly when no index contradicts that mapping.
    fn stabilised(&self) -> (r: bool)
        requires
            self.spec_labels().len() == self.spec_new_labels().len(),
        ensures
            r == consistent_relabel(self.spec_labels(), self.spec_new_labels()),
    {
        broadcast use vstd::std_specs::hash::group_hash_axioms;

        let mut label_mapping: std::collections::HashMap<u64, u64> =
            std::collections::HashMap::new();
        let n = self.labels.len();
        let mut idx: usize = 0;
        while idx < n
            invariant
                idx <= n,
                n == self.spec_labels().len(),
                n == self.spec_new_labels().len(),
                forall|i: int, j: int|
                    0 <= i < idx && 0 <= j < idx && self.spec_labels()[i] == self.spec_labels()[j]
                        ==> self.spec_new_labels()[i] == self.spec_new_labels()[j],
                forall|i: int|
                    0 <= i < idx ==> label_mapping@.contains_key(#[trigger] self.spec_labels()[i])
                        && label_mapping@[self.spec_labels()[i]] == self.spec_new_labels()[i],
                forall|k: u64|
                    #[trigger] label_mapping@.contains_key(k) ==> exists|i: int|
                        0 <= i < idx && self.spec_labels()[i] == k,
            decreases n - idx,
        {
            let old_hash = self.labels[idx];
            match label_mapping.get(&old_hash) {
                Option::Some(new_hash) => {
                    if self.new_labels[idx] != *new_hash {
                        proof {
                            let j = choose|j: int|
                                0 <= j < idx && self.spec_labels()[j] == old_hash;
                            assert(self.spec_new_labels()[j] == *new_hash);
                            assert(!consistent_relabel(
                                self.spec_labels(),
                                self.spec_new_labels(),
                            ));
                        }
                        return false;
                    }
                },
                Option::None => {
                    label_mapping.insert(old_hash, self.new_labels[idx]);
                },
            }
            idx += 1;
        }
        true
    }

    /// Makes the freshly computed labels current by swapping the two buffers;
    /// if history recording is on, first appends each new label to its node's
    /// history.
    fn update_graph(&mut self)
        requires
            old(self).spec_get_subgraphs() ==> old(self).spec_has_history() && old(
                self,
            ).spec_history().len() == old(self).spec_new_labels().len(),
        ensures
            final(self).config_matches(*old(self)),
            final(self).spec_labels() == old(self).spec_new_labels(),
            final(self).spec_new_labels() == old(self).spec_labels(),
            final(self).spec_has_history() == old(self).spec_has_history(),
            !old(self).spec_get_subgraphs() ==> final(self).spec_history() == old(
                self,
            ).spec_history(),
            old(self).spec_get_subgraphs() ==> final(self).spec_history() == Seq::new(
                old(self).spec_history().len(),
                |i: int| old(self).spec_history()[i].push(old(self).spec_new_labels()[i]),
            ),
    {
        if self.get_subgraphs {
            let mut subs_opt: Option<Vec<Vec<u64>>> = Option::None;
            core::mem::swap(&mut subs_opt, &mut self.subgraphs);
            let mut subs: Vec<Vec<u64>> = match subs_opt {
                Option::Some(v) => v,
                Option::None => {
                    proof {
                        assert(false);
                    }
                    Vec::new()
                },
            };
            let ghost orig_subs = subs@;
            let mut idx: usize = 0;
            while idx < self.new_labels.len()
                invariant
                    idx <= self.spec_new_labels().len(),
                    subs@.len() == orig_subs.len(),
                    orig_subs.len() == self.spec_new_labels().len(),
                    forall|i: int|
                        0 <= i < idx ==> (#[trigger] subs@[i])@ == orig_subs[i]@.push(
                            self.spec_new_labels()[i],
                        ),
                    forall|i: int| idx <= i < orig_subs.len() ==> #[trigger] subs@[i] == orig_subs[i],
                decreases self.spec_new_labels().len() - idx,
            {
                let mut inner: Vec<u64> = Vec::new();
                subs.set_and_swap(idx, &mut inner);
                inner.push(self.new_labels[idx]);
                subs.set(idx, inner);
                idx += 1;
            }
            self.subgraphs = Option::Some(subs);
            proof {
                assert(self.spec_history() =~~= Seq::new(
                    orig_subs.len(),
                    |i: int| orig_subs[i]@.push(self.spec_new_labels()[i]),
                ));
            }
        }
        core::mem::swap(&mut self.labels, &mut self.new_labels);
    }

    /// The current label buffer, one label per index.
    pub fn current_labels(&self) -> (r: &Vec<u64>)
        ensures
            r@ == self.spec_labels(),
    {
        &self.labels
    }

    /// Hands out the recorded per-node histories, consuming the engine.
    pub fn into_histories(self) -> (r: Vec<Vec<u64>>)
        requires
            self.spec_has_history(),
        ensures
            r@.len() == self.spec_history().len(),
            forall|i: int| 0 <= i < r@.len() ==> (#[trigger] r@[i])@ == self.spec_history()[i],
    {
        match self.subgraphs {
            Option::Some(v) => v,
            Option::None => {
                proof {
                    assert(false);
                }
                Vec::new()
            },
        }
    }

    /// Distills the final invariant: sorts the current label buffer ascending
    /// and hashes the sorted sequence into a single value.
    pub fn get_results(&mut self) -> (r: u64)
        ensures
            final(self).config_matches(*old(self)),
            final(self).spec_new_labels() == old(self).spec_new_labels(),
            final(self).spec_has_history() == old(self).spec_has_history(),
            final(self).spec_history() == old(self).spec_history(),
            final(self).spec_labels() == sort_words(old(self).spec_labels()),
            r == finalized(old(self).spec_seed(), old(self).spec_labels()),
    {
        let sorted = sorted_words(&self.labels);
        self.labels = sorted;
        hash_words(self.seed, &self.labels)
    }
}

/// A buffer of `n` zeroed labels.
fn zero_words(n: usize) -> (v: Vec<u64>)
    ensures
        v@.len() == n,
{
    let mut v: Vec<u64> = Vec::new();
    let mut k: usize = 0;
    while k < n
        invariant
            k <= n,
            v@.len() == k,
        decreases n - k,
    {
        v.push(0);
        k += 1;
    }
    v
}

/// One empty history per node.
fn empty_histories(n: usize) -> (v: Vec<Vec<u64>>)
    ensures
        v@.len() == n,
        forall|i: int| 0 <= i < n ==> (#[trigger] v@[i])@.len() == 0,
{
    let mut v: Vec<Vec<u64>> = Vec::new();
    let mut k: usize = 0;
    while k < n
        invariant
            k <= n,
            v@.len() == k,
            forall|i: int| 0 <= i < k ==> (#[trigger] v@[i])@.len() == 0,
        decreases n - k,
    {
        v.push(Vec::new());
        k += 1;
    }
    v
}

impl GraphWrapper<OneWL> {
    /// A freshly constructed one-dimensional engine, ready to run: the label
    /// buffer is still empty, the next-label buffer spans the nodes, and the
    /// history, if requested, holds one empty sequence per node.
    pub open spec fn ready(self) -> bool {
        &&& self.spec_graph().wf()
        &&& self.spec_labels().len() == 0
        &&& self.spec_new_labels().len() == self.spec_graph().spec_n()
        &&& self.spec_get_subgraphs() == self.spec_has_history()
        &&& self.spec_get_subgraphs() ==> self.spec_history().len() == self.spec_graph().spec_n()
            && (forall|i: int|
            0 <= i < self.spec_history().len() ==> (#[trigger] self.spec_history()[i]).len() == 0)
    }

    /// Builds a one-dimensional engine over `graph`. The requested iteration
    /// budget, if `0` or larger than the node count, is clamped to one less
    /// than the node count before the run starts.
    pub fn new(graph: Graph, seed: u64, niters: usize, check_stable: bool, sub: bool) -> (w: Self)
        requires
            graph.wf(),
        ensures
            w.spec_graph() == graph,
            w.spec_seed() == seed,
            w.spec_check_stable() == check_stable,
            w.spec_get_subgraphs() == sub,
            w.spec_niters() == clamp_iters(niters as int, graph.spec_n() as int),
            w.ready(),
    {
        let n = graph.node_count();
        let mut niters = niters;
        if niters == 0 || niters > n {
            niters = if n == 0 {
                0
            } else {
                n - 1
            };
        }
        let new_labels = zero_words(n);
        let subgraphs = if sub {
            Option::Some(empty_histories(n))
        } else {
            Option::None
        };
        GraphWrapper {
            graph,
            seed,
            labels: Vec::new(),
            new_labels,
            niters,
            check_stable,
            get_subgraphs: sub,
            subgraphs,
            dim: core::marker::PhantomData,
        }
    }

    /// Seeds the label buffer: degrees for an undirected graph, digests of the
    /// outgoing and incoming degree for a directed one; if history recording
    /// is on, each node's initial label becomes its first history entry.
    fn initial_graph(&mut self)
        requires
            old(self).ready(),
        ensures
            final(self).config_matches(*old(self)),
            final(self).spec_new_labels() == old(self).spec_new_labels(),
            final(self).spec_labels() == initial_labels(
                old(self).spec_graph(),
                old(self).spec_seed(),
            ),
            final(self).spec_has_history() == old(self).spec_has_history(),
            old(self).spec_get_subgraphs() ==> final(self).spec_history() == history_of(
                old(self).spec_graph(),
                old(self).spec_seed(),
                0,
            ),
            !old(self).spec_get_subgraphs() ==> final(self).spec_history() == old(
                self,
            ).spec_history(),
    {
        let ghost g = self.spec_graph();
        let ghost seed = self.spec_seed();
        let n = self.graph.node_count();
        let directed = self.graph.is_directed();
        let mut v: usize = 0;
        while v < n
            invariant
                v <= n,
                n == g.spec_n(),
                self.graph == g,
                g.wf(),
                self.spec_seed() == seed,
                self.spec_labels().len() == v,
                forall|w: int|
                    0 <= w < v ==> self.spec_labels()[w] == init_label(g, seed, w),
                directed == g.spec_directed(),
                self.spec_new_labels() == old(self).spec_new_labels(),
                self.spec_niters() == old(self).spec_niters(),
                self.spec_check_stable() == old(self).spec_check_stable(),
                self.spec_get_subgraphs() == old(self).spec_get_subgraphs(),
                self.subgraphs == old(self).subgraphs,
            decreases n - v,
        {
            let h: u64 = if !directed {
                self.graph.count_degree(v, DegreeMode::Undirected) as u64
            } else {
                let outd = self.graph.count_degree(v, DegreeMode::Outgoing);
                let ind = self.graph.count_degree(v, DegreeMode::Incoming);
                let mut degs: Vec<u64> = Vec::new();
                degs.push(outd as u64);
                degs.push(ind as u64);
                let hh = hash_words(self.seed, &degs);
                proof {
                    assert(degs@ =~= seq![
                        out_degree(g.spec_edges(), v as int) as u64,
                        in_degree(g.spec_edges(), v as int) as u64,
                    ]);
                }
                hh
            };
            self.labels.push(h);
            v += 1;
        }
        proof {
            assert(self.spec_labels() =~= initial_labels(g, seed));
        }
        if self.get_subgraphs {
            let mut subs_opt: Option<Vec<Vec<u64>>> = Option::None;
            core::mem::swap(&mut subs_opt, &mut self.subgraphs);
            let mut subs: Vec<Vec<u64>> = match subs_opt {
                Option::Some(s) => s,
                Option::None => {
                    proof {
                        assert(false);
                    }
                    Vec::new()
                },
            };
            proof {
                assert(subs@.len() == n);
                assert forall|i: int| 0 <= i < n implies (#[trigger] subs@[i])@.len() == 0 by {
                    assert(old(self).spec_history()[i] == subs@[i]@);
                    assert(old(self).spec_history()[i].len() == 0);
                }
            }
            let mut idx: usize = 0;
            while idx < n
                invariant
                    idx <= n,
                    n == g.spec_n(),
                    subs@.len() == n,
                    self.spec_labels() == initial_labels(g, seed),
                    self.spec_labels().len() == n,
                    forall|i: int|
                        0 <= i < idx ==> (#[trigger] subs@[i])@ == seq![initial_labels(g, seed)[i]],
                    forall|i: int| idx <= i < n ==> (#[trigger] subs@[i])@.len() == 0,
                decreases n - idx,
            {
                let mut inner: Vec<u64> = Vec::new();
                subs.set_and_swap(idx, &mut inner);
                inner.push(self.labels[idx]);
                proof {
                    assert(inner@ =~= seq![initial_labels(g, seed)[idx as int]]);
                }
                subs.set(idx, inner);
                idx += 1;
            }
            self.subgraphs = Option::Some(subs);
            proof {
                assert(self.spec_history() =~~= history_of(g, seed, 0)) by {
                    assert forall|i: int| 0 <= i < n implies self.spec_history()[i] == history_of(
                        g,
                        seed,
                        0,
                    )[i] by {
                        assert(self.spec_history()[i] =~= history_of(g, seed, 0)[i]);
                    }
                }
            }
        }
    }

    /// Recomputes every node's next label from the current buffer: sorted
    /// neighbour labels with the node's own label appended last, digested;
    /// for directed graphs the incoming and outgoing flows are digested
    /// separately first.
    fn calculate_new_labels(&mut self)
        requires
            old(self).spec_graph().wf(),
            old(self).spec_labels().len() == old(self).spec_graph().spec_n(),
            old(self).spec_new_labels().len() == old(self).spec_graph().spec_n(),
        ensures
            final(self).config_matches(*old(self)),
            final(self).spec_labels() == old(self).spec_labels(),
            final(self).spec_has_history() == old(self).spec_has_history(),
            final(self).spec_history() == old(self).spec_history(),
            final(self).spec_new_labels() == step_labels(
                old(self).spec_graph(),
                old(self).spec_seed(),
                old(self).spec_labels(),
            ),
    {
        let ghost g = self.spec_graph();
        let ghost seed = self.spec_seed();
        let ghost labels = self.spec_labels();
        let n = self.graph.node_count();
        let directed = self.graph.is_directed();
        let mut v: usize = 0;
        while v < n
            invariant
                v <= n,
                n == g.spec_n(),
                self.graph == g,
                g.wf(),
                self.spec_seed() == seed,
                self.spec_labels() == labels,
                labels.len() == n,
                directed == g.spec_directed(),
                self.spec_new_labels().len() == n,
                forall|w: int|
                    0 <= w < v ==> self.spec_new_labels()[w] == next_label(g, seed, labels, w),
                self.spec_niters() == old(self).spec_niters(),
                self.spec_check_stable() == old(self).spec_check_stable(),
                self.spec_get_subgraphs() == old(self).spec_get_subgraphs(),
                self.subgraphs == old(self).subgraphs,
            decreases n - v,
        {
            let h: u64 = if !directed {
                let nbrs = self.graph.collect_nbr_labels_undir(&self.labels, v);
                let mut input_hashes = sorted_words(&nbrs);
                input_hashes.push(self.labels[v]);
                hash_words(self.seed, &input_hashes)
            } else {
                let incoming = self.graph.collect_dir_labels(&self.labels, v, true);
                let sorted_in = sorted_words(&incoming);
                let h_in = hash_words(self.seed, &sorted_in);
                let outgoing = self.graph.collect_dir_labels(&self.labels, v, false);
                let sorted_out = sorted_words(&outgoing);
                let h_out = hash_words(self.seed, &sorted_out);
                let mut combined: Vec<u64> = Vec::new();
                combined.push(h_in);
                combined.push(h_out);
                combined.push(self.labels[v]);
                let hh = hash_words(self.seed, &combined);
                proof {
                    assert(combined@ =~= seq![h_in, h_out, labels[v as int]]);
                }
                hh
            };
            self.new_labels.set(v, h);
            v += 1;
        }
        proof {
            assert(self.spec_new_labels() =~= step_labels(g, seed, labels));
        }
    }

    /// Runs the refinement to completion: in auto-stop mode, until the label
    /// partition stabilizes (the stabilizing round is detected but not
    /// applied, so the final labels are those of the round before it), with a
    /// safety bound of one round per node against digest collisions that
    /// could keep the partition churning; in fixed mode, until the clamped
    /// budget is consumed.
    pub fn run(&mut self)
        requires
            old(self).ready(),
        ensures
            final(self).config_matches(*old(self)),
            final(self).spec_has_history() == old(self).spec_has_history(),
            old(self).spec_check_stable() ==> exists|k: nat|
                #![trigger labels_after(old(self).spec_graph(), old(self).spec_seed(), k)]
                k <= old(self).spec_graph().spec_n() && (forall|j: nat|
                    j < k ==> !stable_at(old(self).spec_graph(), old(self).spec_seed(), j)) && (
                stable_at(old(self).spec_graph(), old(self).spec_seed(), k) || k == old(
                    self,
                ).spec_graph().spec_n()) && final(self).spec_labels() == labels_after(
                    old(self).spec_graph(),
                    old(self).spec_seed(),
                    k,
                ) && (old(self).spec_get_subgraphs() ==> final(self).spec_history() == history_of(
                    old(self).spec_graph(),
                    old(self).spec_seed(),
                    k,
                )),
            !old(self).spec_check_stable() ==> final(self).spec_labels() == labels_after(
                old(self).spec_graph(),
                old(self).spec_seed(),
                applied_rounds_fixed(old(self).spec_niters()),
            ) && (old(self).spec_get_subgraphs() ==> final(self).spec_history() == history_of(
                old(self).spec_graph(),
                old(self).spec_seed(),
                applied_rounds_fixed(old(self).spec_niters()),
            )),
    {
        let ghost g = self.spec_graph();
        let ghost seed = self.spec_seed();
        self.initial_graph();
        let n = self.graph.node_count();
        let mut its: usize = 1;
        let mut remaining: usize = n;
        let mut found_stable: bool = false;
        let ghost mut applied: nat = 0;
        proof {
            lemma_labels_after_len(g, seed, 0);
        }
        while (self.check_stable && remaining > 0 && !found_stable) || (!self.check_stable
            && its < self.niters)
            invariant
                self.config_matches(*old(self)),
                self.spec_graph() == g,
                self.spec_seed() == seed,
                g.wf(),
                n == g.spec_n(),
                self.spec_labels() == labels_after(g, seed, applied),
                self.spec_labels().len() == n,
                self.spec_new_labels().len() == n,
                self.spec_has_history() == old(self).spec_has_history(),
                self.spec_get_subgraphs() ==> self.spec_history() == history_of(g, seed, applied),
                !self.spec_check_stable() ==> its as int == applied + 1,
                self.spec_check_stable() ==> its == 1,
                self.spec_check_stable() ==> remaining as int == n - applied && (forall|j: nat|
                    j < applied ==> !stable_at(g, seed, j)),
                !self.spec_check_stable() ==> (self.spec_niters() == 0 && its == 1) || (
                self.spec_niters() > 0 && its as int <= self.spec_niters()),
                found_stable ==> self.spec_check_stable() && stable_at(g, seed, applied),
                self.spec_get_subgraphs() ==> self.spec_has_history(),
            decreases remaining + self.spec_niters() - its + (if found_stable {
                0int
            } else {
                1int
            }),
        {
            self.calculate_new_labels();
            proof {
                lemma_labels_after_len(g, seed, (applied + 1) as nat);
                assert(self.spec_new_labels() == labels_after(g, seed, (applied + 1) as nat));
            }
            if self.check_stable && self.stabilised() {
                proof {
                    assert(stable_at(g, seed, applied));
                }
                found_stable = true;
            } else {
                proof {
                    if self.spec_check_stable() {
                        assert(!stable_at(g, seed, applied));
                    }
                }
                self.update_graph();
                proof {
                    if self.spec_get_subgraphs() {
                        lemma_history_step(g, seed, applied);
                        assert(self.spec_history() =~~= history_of(g, seed, (applied + 1) as nat));
                    }
                    applied = applied + 1;
                }
                if self.check_stable {
                    remaining -= 1;
                } else {
                    its += 1;
                }
            }
        }
        proof {
            if old(self).spec_check_stable() {
                assert(self.spec_labels() == labels_after(g, seed, applied));
                if !found_stable {
                    assert(remaining == 0 || n == 0);
                    assert(applied == n);
                }
                assert(applied <= n && (forall|j: nat| j < applied ==> !stable_at(g, seed, j)) && (
                stable_at(g, seed, applied) || applied == n));
            } else {
                assert(applied == applied_rounds_fixed(old(self).spec_niters()));
            }
        }
    }
}

impl GraphWrapper<TwoWL> {
    /// A freshly constructed two-dimensional engine, ready to run: the label
    /// buffer is still empty and the next-label buffer spans the triangular
    /// pair-index space. Two-dimensional refinement supports neither directed
    /// graphs nor history recording.
    pub open spec fn ready2(self) -> bool {
        &&& self.spec_graph().wf()
        &&& !self.spec_graph().spec_directed()
        &&& self.spec_graph().spec_n() * self.spec_graph().spec_n() <= usize::MAX
        &&& self.spec_labels().len() == 0
        &&& self.spec_new_labels().len() == tri(self.spec_graph().spec_n() as int)
        &&& !self.spec_get_subgraphs()
        &&& !self.spec_has_history()
    }

    /// Builds a two-dimensional engine over `graph`: one label per unordered
    /// node pair, stored at the canonical triangular index. The requested
    /// iteration budget, if `0` or larger than the pair-index space, is
    /// clamped to one less than that space.
    pub fn new_2wl(graph: Graph, seed: u64, niters: usize, check_stable: bool, sub: bool) -> (w:
        Self)
        requires
            graph.wf(),
            !graph.spec_directed(),
            !sub,
            graph.spec_n() * graph.spec_n() <= usize::MAX,
        ensures
            w.spec_graph() == graph,
            w.spec_seed() == seed,
            w.spec_check_stable() == check_stable,
            w.spec_get_subgraphs() == sub,
            w.spec_niters() == clamp_iters(niters as int, tri(graph.spec_n() as int)),
            w.ready2(),
    {
        let n = graph.node_count();
        proof {
            lemma_tri_formula(n as int);
        }
        let number_tuples: usize = if n % 2 == 0 {
            (n / 2) * (n + 1)
        } else {
            n * ((n + 1) / 2)
        };
        let mut niters = niters;
        if niters == 0 || niters > number_tuples {
            niters = if number_tuples == 0 {
                0
            } else {
                number_tuples - 1
            };
        }
        let new_labels = zero_words(number_tuples);
        GraphWrapper {
            graph,
            seed,
            labels: Vec::new(),
            new_labels,
            niters,
            check_stable,
            get_subgraphs: sub,
            subgraphs: Option::None,
            dim: core::marker::PhantomData,
        }
    }

    /// Seeds the pair-label buffer: for every canonical pair, in triangular
    /// index order, the number of edges connecting its two nodes.
    fn initial_graph(&mut self)
        requires
            old(self).ready2(),
        ensures
            final(self).config_matches(*old(self)),
            final(self).spec_new_labels() == old(self).spec_new_labels(),
            final(self).spec_has_history() == old(self).spec_has_history(),
            final(self).spec_history() == old(self).spec_history(),
            final(self).spec_labels() == initial2_labels(old(self).spec_graph()),
    {
        let ghost g = self.spec_graph();
        let n = self.graph.node_count();
        let mut left: usize = 0;
        while left < n
            invariant
                left <= n,
                n == g.spec_n(),
                self.graph == g,
                g.wf(),
                self.spec_seed() == old(self).spec_seed(),
                self.spec_labels().len() == tri(left as int),
                forall|q: int|
                    0 <= q < tri(left as int) ==> self.spec_labels()[q] == init2_label(g, q),
                self.spec_new_labels() == old(self).spec_new_labels(),
                self.spec_niters() == old(self).spec_niters(),
                self.spec_check_stable() == old(self).spec_check_stable(),
                self.spec_get_subgraphs() == old(self).spec_get_subgraphs(),
                self.subgraphs == old(self).subgraphs,
            decreases n - left,
        {
            let mut right: usize = 0;
            while right <= left
                invariant
                    right <= left + 1,
                    left < n,
                    n == g.spec_n(),
                    self.graph == g,
                    g.wf(),
                    self.spec_seed() == old(self).spec_seed(),
                    self.spec_labels().len() == tri(left as int) + right,
                    forall|q: int|
                        0 <= q < tri(left as int) + right ==> self.spec_labels()[q] == init2_label(
                            g,
                            q,
                        ),
                    self.spec_new_labels() == old(self).spec_new_labels(),
                    self.spec_niters() == old(self).spec_niters(),
                    self.spec_check_stable() == old(self).spec_check_stable(),
                    self.spec_get_subgraphs() == old(self).spec_get_subgraphs(),
                    self.subgraphs == old(self).subgraphs,
                decreases left + 1 - right,
            {
                proof {
                    lemma_pair_index_decodes(left as int, right as int);
                }
                let c = self.graph.count_edges_between(left, right);
                self.labels.push(c as u64);
                right += 1;
            }
            proof {
                lemma_tri_next(left as int);
            }
            left += 1;
        }
        proof {
            lemma_labels2_after_len(g, old(self).spec_seed(), 0);
            assert(self.spec_labels() =~= initial2_labels(g));
        }
    }

    /// Recomputes every pair's next label from the current buffer: for each
    /// third node, the direction-free pair of leg labels; the collected pairs
    /// sorted lexicographically, flattened, the pair's own label appended
    /// last, and the whole sequence digested.
    fn calculate_new_labels(&mut self)
        requires
            old(self).spec_graph().wf(),
            !old(self).spec_graph().spec_directed(),
            old(self).spec_graph().spec_n() * old(self).spec_graph().spec_n() <= usize::MAX,
            old(self).spec_labels().len() == tri(old(self).spec_graph().spec_n() as int),
            old(self).spec_new_labels().len() == tri(old(self).spec_graph().spec_n() as int),
        ensures
            final(self).config_matches(*old(self)),
            final(self).spec_labels() == old(self).spec_labels(),
            final(self).spec_has_history() == old(self).spec_has_history(),
            final(self).spec_history() == old(self).spec_history(),
            final(self).spec_new_labels() == step2_labels(
                old(self).spec_graph(),
                old(self).spec_seed(),
                old(self).spec_labels(),
            ),
    {
        let ghost g = self.spec_graph();
        let ghost seed = self.spec_seed();
        let ghost labels = self.spec_labels();
        let n = self.graph.node_count();
        let mut left: usize = 0;
        while left < n
            invariant
                left <= n,
                n == g.spec_n(),
                self.graph == g,
                g.wf(),
                n * n <= usize::MAX,
                self.spec_seed() == seed,
                self.spec_labels() == labels,
                labels.len() == tri(n as int),
                self.spec_new_labels().len() == tri(n as int),
                forall|q: int|
                    0 <= q < tri(left as int) ==> self.spec_new_labels()[q] == next2_label(
                        g,
                        seed,
                        labels,
                        row_of(q),
                        col_of(q),
                    ),
                self.spec_niters() == old(self).spec_niters(),
                self.spec_check_stable() == old(self).spec_check_stable(),
                self.spec_get_subgraphs() == old(self).spec_get_subgraphs(),
                self.subgraphs == old(self).subgraphs,
            decreases n - left,
        {
            let mut right: usize = 0;
            while right <= left
                invariant
                    right <= left + 1,
                    left < n,
                    n == g.spec_n(),
                    self.graph == g,
                    g.wf(),
                    n * n <= usize::MAX,
                    self.spec_seed() == seed,
                    self.spec_labels() == labels,
                    labels.len() == tri(n as int),
                    self.spec_new_labels().len() == tri(n as int),
                    forall|q: int|
                        0 <= q < tri(left as int) + right ==> self.spec_new_labels()[q]
                            == next2_label(g, seed, labels, row_of(q), col_of(q)),
                    self.spec_niters() == old(self).spec_niters(),
                    self.spec_check_stable() == old(self).spec_check_stable(),
                    self.spec_get_subgraphs() == old(self).spec_get_subgraphs(),
                    self.subgraphs == old(self).subgraphs,
                decreases left + 1 - right,
            {
                proof {
                    assert(left * left + left + right <= usize::MAX && right * right + right
                        + left <= usize::MAX) by (nonlinear_arith)
                        requires
                            left < n,
                            right <= left,
                            n * n <= usize::MAX,
                    ;
                }
                let mut input_pairs: Vec<(u64, u64)> = Vec::new();
                let mut alternative: usize = 0;
                while alternative < n
                    invariant
                        alternative <= n,
                        left < n,
                        right <= left,
                        n == g.spec_n(),
                        self.graph == g,
                        g.wf(),
                        n * n <= usize::MAX,
                        self.spec_seed() == seed,
                        self.spec_labels() == labels,
                        labels.len() == tri(n as int),
                        input_pairs@.len() == alternative,
                        forall|m: int|
                            0 <= m < alternative ==> input_pairs@[m] == triple_pair(
                                labels,
                                left as int,
                                right as int,
                                m,
                            ),
                    decreases n - alternative,
                {
                    proof {
                        assert(alternative * alternative + alternative + right <= usize::MAX
                            && right * right + right + alternative <= usize::MAX && left * left
                            + left + alternative <= usize::MAX && alternative * alternative
                            + alternative + left <= usize::MAX) by (nonlinear_arith)
                            requires
                                left < n,
                                right <= left,
                                alternative < n,
                                n * n <= usize::MAX,
                        ;
                        if alternative >= right {
                            lemma_pair_index_bounds(alternative as int, right as int, n as int);
                        } else {
                            lemma_pair_index_bounds(right as int, alternative as int, n as int);
                        }
                        if left >= alternative {
                            lemma_pair_index_bounds(left as int, alternative as int, n as int);
                        } else {
                            lemma_pair_index_bounds(alternative as int, left as int, n as int);
                        }
                    }
                    let left_replace = self.labels[get_label_index(alternative, right)];
                    let right_replace = self.labels[get_label_index(left, alternative)];
                    if left_replace < right_replace {
                        input_pairs.push((left_replace, right_replace));
                    } else {
                        input_pairs.push((right_replace, left_replace));
                    }
                    alternative += 1;
                }
                proof {
                    assert(input_pairs@ =~= pair_row(g, labels, left as int, right as int));
                }
                let sorted = sorted_pairs(&input_pairs);
                let mut flat: Vec<u64> = Vec::new();
                let mut m: usize = 0;
                while m < sorted.len()
                    invariant
                        m <= sorted@.len(),
                        flat@ == flatten_pairs(sorted@.take(m as int)),
                        flat@.len() == 2 * m,
                    decreases sorted@.len() - m,
                {
                    let p = sorted[m];
                    flat.push(p.0);
                    flat.push(p.1);
                    proof {
                        assert(sorted@.take(m as int + 1).drop_last() == sorted@.take(m as int));
                        assert(sorted@.take(m as int + 1).last() == sorted@[m as int]);
                    }
                    m += 1;
                }
                proof {
                    assert(sorted@.take(sorted@.len() as int) == sorted@);
                    assert(left * left + left + right <= usize::MAX && right * right + right
                        + left <= usize::MAX) by (nonlinear_arith)
                        requires
                            left < n,
                            right <= left,
                            n * n <= usize::MAX,
                    ;
                    lemma_pair_index_bounds(left as int, right as int, n as int);
                }
                let current_index = get_label_index(left, right);
                flat.push(self.labels[current_index]);
                let h = hash_words(self.seed, &flat);
                self.new_labels.set(current_index, h);
                proof {
                    lemma_pair_index_decodes(left as int, right as int);
                    assert(self.spec_new_labels()[tri(left as int) + right] == next2_label(
                        g,
                        seed,
                        labels,
                        left as int,
                        right as int,
                    ));
                }
                right += 1;
            }
            proof {
                lemma_tri_next(left as int);
            }
            left += 1;
        }
        proof {
            assert forall|q: int| 0 <= q < tri(n as int) implies self.spec_new_labels()[q]
                == next2_label(g, seed, labels, row_of(q), col_of(q)) by {}
            assert(self.spec_new_labels() =~= step2_labels(g, seed, labels));
        }
    }

    /// Runs the two-dimensional refinement to completion: in auto-stop mode,
    /// until the pair-label partition stabilizes (the stabilizing round is
    /// detected but not applied), with a safety bound of one round per pair
    /// index against digest collisions; in fixed mode, until the clamped
    /// budget is consumed.
    pub fn run(&mut self)
        requires
            old(self).ready2(),
        ensures
            final(self).config_matches(*old(self)),
            final(self).spec_has_history() == old(self).spec_has_history(),
            final(self).spec_history() == old(self).spec_history(),
            old(self).spec_check_stable() ==> exists|k: nat|
                #![trigger labels2_after(old(self).spec_graph(), old(self).spec_seed(), k)]
                k <= tri(old(self).spec_graph().spec_n() as int) && (forall|j: nat|
                    j < k ==> !stable2_at(old(self).spec_graph(), old(self).spec_seed(), j)) && (
                stable2_at(old(self).spec_graph(), old(self).spec_seed(), k) || k == tri(
                    old(self).spec_graph().spec_n() as int,
                )) && final(self).spec_labels() == labels2_after(
                    old(self).spec_graph(),
                    old(self).spec_seed(),
                    k,
                ),
            !old(self).spec_check_stable() ==> final(self).spec_labels() == labels2_after(
                old(self).spec_graph(),
                old(self).spec_seed(),
                applied_rounds_fixed(old(self).spec_niters()),
            ),
    {
        let ghost g = self.spec_graph();
        let ghost seed = self.spec_seed();
        self.initial_graph();
        let space = self.new_labels.len();
        let mut its: usize = 1;
        let mut remaining: usize = space;
        let mut found_stable: bool = false;
        let ghost mut applied: nat = 0;
        proof {
            lemma_labels2_after_len(g, seed, 0);
        }
        while (self.check_stable && remaining > 0 && !found_stable) || (!self.check_stable
            && its < self.niters)
            invariant
                self.config_matches(*old(self)),
                self.spec_graph() == g,
                self.spec_seed() == seed,
                g.wf(),
                !g.spec_directed(),
                g.spec_n() * g.spec_n() <= usize::MAX,
                space == tri(g.spec_n() as int),
                self.spec_labels() == labels2_after(g, seed, applied),
                self.spec_labels().len() == space,
                self.spec_new_labels().len() == space,
                self.spec_has_history() == old(self).spec_has_history(),
                self.spec_history() == old(self).spec_history(),
                !self.spec_get_subgraphs(),
                !self.spec_check_stable() ==> its as int == applied + 1,
                self.spec_check_stable() ==> its == 1,
                self.spec_check_stable() ==> remaining as int == space - applied && (forall|
                    j: nat,
                |
                    j < applied ==> !stable2_at(g, seed, j)),
                !self.spec_check_stable() ==> (self.spec_niters() == 0 && its == 1) || (
                self.spec_niters() > 0 && its as int <= self.spec_niters()),
                found_stable ==> self.spec_check_stable() && stable2_at(g, seed, applied),
            decreases remaining + self.spec_niters() - its + (if found_stable {
                0int
            } else {
                1int
            }),
        {
            self.calculate_new_labels();
            proof {
                lemma_labels2_after_len(g, seed, (applied + 1) as nat);
                assert(self.spec_new_labels() == labels2_after(g, seed, (applied + 1) as nat));
            }
            if self.check_stable && self.stabilised() {
                proof {
                    assert(stable2_at(g, seed, applied));
                }
                found_stable = true;
            } else {
                proof {
                    if self.spec_check_stable() {
                        assert(!stable2_at(g, seed, applied));
                    }
                }
                self.update_graph();
                proof {
                    applied = applied + 1;
                }
                if self.check_stable {
                    remaining -= 1;
                } else {
                    its += 1;
                }
            }
        }
        proof {
            if old(self).spec_check_stable() {
                assert(self.spec_labels() == labels2_after(g, seed, applied));
                if !found_stable {
                    assert(remaining == 0 || space == 0);
                    assert(applied == space);
                }
                assert(applied <= space && (forall|j: nat| j < applied ==> !stable2_at(g, seed, j))
                    && (stable2_at(g, seed, applied) || applied == space));
            } else {
                assert(applied == applied_rounds_fixed(old(self).spec_niters()));
            }
        }
    }
}

} // verus!
