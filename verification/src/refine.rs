//! The mathematical model of Weisfeiler-Leman colour refinement.
//!
//! These spec functions define, round by round, the label buffers that the
//! engine computes: initial labels from degree information, per-round label
//! recomputation from sorted neighbour (or triple) aggregates, stabilization
//! of the induced partition, and the final sorted-and-hashed invariant.
use crate::graph::{
    degree_undir, edges_between, in_degree, in_labels, nbr_labels_undir, out_degree, out_labels,
    Graph,
};
use crate::hashing::xxh64;
use crate::sorting::{sort_pairs, sort_words};
use vstd::prelude::*;

verus! {

// ------------------------------------------------------------------
// One-dimensional refinement: one label per node.
// ------------------------------------------------------------------
/// A node's initial label: its degree for an undirected graph, or the digest
/// of its outgoing and incoming degree for a directed one.
pub open spec fn init_label(g: Graph, seed: u64, v: int) -> u64 {
    if g.spec_directed() {
        xxh64(
            seed,
            seq![
                out_degree(g.spec_edges(), v) as u64,
                in_degree(g.spec_edges(), v) as u64,
            ],
        )
    } else {
        degree_undir(g.spec_edges(), v) as u64
    }
}

/// The initial label buffer, one label per node.
pub open spec fn initial_labels(g: Graph, seed: u64) -> Seq<u64> {
    Seq::new(g.spec_n(), |v: int| init_label(g, seed, v))
}

/// A node's next label: the digest of its sorted neighbour labels with its own
/// label appended last; for directed graphs the incoming and outgoing flows
/// are digested separately first.
pub open spec fn next_label(g: Graph, seed: u64, labels: Seq<u64>, v: int) -> u64 {
    if g.spec_directed() {
        let hi = xxh64(seed, sort_words(in_labels(g.spec_edges(), labels, v)));
        let ho = xxh64(seed, sort_words(out_labels(g.spec_edges(), labels, v)));
        xxh64(seed, seq![hi, ho, labels[v]])
    } else {
        xxh64(seed, sort_words(nbr_labels_undir(g.spec_edges(), labels, v)).push(labels[v]))
    }
}

/// One refinement round applied to a whole label buffer.
pub open spec fn step_labels(g: Graph, seed: u64, labels: Seq<u64>) -> Seq<u64> {
    Seq::new(labels.len(), |v: int| next_label(g, seed, labels, v))
}

/// The label buffer after `k` applied rounds.
pub open spec fn labels_after(g: Graph, seed: u64, k: nat) -> Seq<u64>
    decreases k,
{
    if k == 0 {
        initial_labels(g, seed)
    } else {
        step_labels(g, seed, labels_after(g, seed, (k - 1) as nat))
    }
}

pub proof fn lemma_labels_after_len(g: Graph, seed: u64, k: nat)
    ensures
        labels_after(g, seed, k).len() == g.spec_n(),
    decreases k,
{
    if k > 0 {
        lemma_labels_after_len(g, seed, (k - 1) as nat);
    }
}

/// Extending the history by one round appends, per node, exactly that round's
/// label.
pub proof fn lemma_history_step(g: Graph, seed: u64, k: nat)
    ensures
        history_of(g, seed, (k + 1) as nat) == Seq::new(
            g.spec_n() as nat,
            |v: int| history_of(g, seed, k)[v].push(labels_after(g, seed, (k + 1) as nat)[v]),
        ),
{
    let lhs = history_of(g, seed, (k + 1) as nat);
    let rhs = Seq::new(
        g.spec_n(),
        |v: int| history_of(g, seed, k)[v].push(labels_after(g, seed, (k + 1) as nat)[v]),
    );
    assert forall|v: int| 0 <= v < g.spec_n() implies lhs[v] == rhs[v] by {
        assert(lhs[v] =~= rhs[v]);
    }
    assert(lhs =~~= rhs);
}

// ------------------------------------------------------------------
// Stabilization: the partition induced by the labels stops refining.
// ------------------------------------------------------------------
/// Whether the old-to-new label mapping is consistent: indices that shared an
/// old label still share a new one, so the induced partition did not refine.
pub open spec fn consistent_relabel(olds: Seq<u64>, news: Seq<u64>) -> bool {
    forall|i: int, j: int|
        0 <= i < olds.len() && 0 <= j < olds.len() && olds[i] == olds[j] ==> news[i] == news[j]
}

/// Whether one-dimensional refinement has stabilized after `k` applied rounds.
pub open spec fn stable_at(g: Graph, seed: u64, k: nat) -> bool {
    consistent_relabel(labels_after(g, seed, k), labels_after(g, seed, (k + 1) as nat))
}

/// The single invariant value distilled from a label buffer: the digest of the
/// buffer in ascending order, so it does not depend on node numbering.
pub open spec fn finalized(seed: u64, labels: Seq<u64>) -> u64 {
    xxh64(seed, sort_words(labels))
}

/// The one-dimensional invariant after `k` applied rounds.
pub open spec fn invariant_after(g: Graph, seed: u64, k: nat) -> u64 {
    finalized(seed, labels_after(g, seed, k))
}

/// The iteration budget after clamping: a request of `0`, or one exceeding the
/// index space, becomes one less than the index-space size.
pub open spec fn clamp_iters(requested: int, space: int) -> int {
    if requested == 0 || requested > space {
        if space == 0 {
            0
        } else {
            space - 1
        }
    } else {
        requested
    }
}

/// How many rounds a fixed budget of `niters` actually applies.
pub open spec fn applied_rounds_fixed(niters: int) -> nat {
    if niters <= 1 {
        0
    } else {
        (niters - 1) as nat
    }
}

/// The per-node label history over `rounds` applied rounds: each node's
/// sequence starts with its initial label and appends one label per applied
/// round.
pub open spec fn history_of(g: Graph, seed: u64, rounds: nat) -> Seq<Seq<u64>> {
    Seq::new(
        g.spec_n(),
        |v: int| Seq::new((rounds + 1) as nat, |t: int| labels_after(g, seed, t as nat)[v]),
    )
}

// ------------------------------------------------------------------
// Two-dimensional refinement: one label per unordered node pair,
// stored at the canonical triangular index.
// ------------------------------------------------------------------
/// The triangular number `i * (i + 1) / 2`: the index where row `i` starts.
pub open spec fn tri(i: int) -> int {
    i * (i + 1) / 2
}

/// The canonical triangular index of the unordered pair `{i, j}`.
pub open spec fn pair_index(i: int, j: int) -> int {
    if i >= j {
        tri(i) + j
    } else {
        tri(j) + i
    }
}

/// The row a triangular index belongs to: the unique `i` with
/// `tri(i) <= p < tri(i + 1)`.
pub open spec fn row_of(p: int) -> int {
    choose|i: int| 0 <= i && #[trigger] tri(i) <= p < tri(i + 1)
}

/// The column within the row of a triangular index.
pub open spec fn col_of(p: int) -> int {
    p - tri(row_of(p))
}

pub proof fn lemma_tri_next(i: int)
    ensures
        tri(i + 1) == tri(i) + i + 1,
{
    assert((i + 1) * (i + 2) == i * (i + 1) + 2 * (i + 1)) by (nonlinear_arith);
}

pub proof fn lemma_tri_mono(a: int, b: int)
    requires
        0 <= a <= b,
    ensures
        tri(a) <= tri(b),
        a + 1 <= b ==> tri(a + 1) <= tri(b),
    decreases b - a,
{
    if a < b {
        lemma_tri_next(b - 1);
        lemma_tri_mono(a, b - 1);
    }
}

/// Any nonnegative index lies in exactly one row, so `row_of` and `col_of`
/// decode it; conversely they invert `pair_index` on canonical pairs.
pub proof fn lemma_row_exists(p: int)
    requires
        0 <= p,
    ensures
        0 <= row_of(p),
        tri(row_of(p)) <= p < tri(row_of(p) + 1),
        0 <= col_of(p) <= row_of(p),
    decreases p,
{
    if p == 0 {
        assert(tri(0) == 0);
        lemma_tri_next(0);
        assert(0 <= 0 && tri(0) <= 0 < tri(1));
        assert(exists|i: int| 0 <= i && #[trigger] tri(i) <= p < tri(i + 1));
    } else {
        lemma_row_exists(p - 1);
        let i = row_of(p - 1);
        if p < tri(i + 1) {
            assert(0 <= i && tri(i) <= p < tri(i + 1));
        } else {
            lemma_tri_next(i);
            lemma_tri_next(i + 1);
            assert(0 <= i + 1 && tri(i + 1) <= p < tri(i + 2));
        }
        let r = row_of(p);
        assert(0 <= r && tri(r) <= p < tri(r + 1));
        lemma_tri_next(r);
    }
}

pub proof fn lemma_pair_index_decodes(i: int, j: int)
    requires
        0 <= j <= i,
    ensures
        row_of(tri(i) + j) == i,
        col_of(tri(i) + j) == j,
        pair_index(i, j) == tri(i) + j,
        pair_index(j, i) == tri(i) + j,
{
    let p = tri(i) + j;
    lemma_tri_next(i);
    assert(tri(i) >= 0) by {
        lemma_tri_mono(0, i);
    }
    lemma_row_exists(p);
    let r = row_of(p);
    if r < i {
        lemma_tri_mono(r + 1, i);
        assert(false);
    }
    if r > i {
        lemma_tri_mono(i + 1, r);
        assert(false);
    }
}

/// A canonical pair's triangular index lies within the triangular index space.
pub proof fn lemma_pair_index_bounds(i: int, j: int, n: int)
    requires
        0 <= j <= i < n,
    ensures
        0 <= pair_index(i, j) < tri(n),
        pair_index(i, j) == tri(i) + j,
        pair_index(j, i) == tri(i) + j,
{
    lemma_pair_index_decodes(i, j);
    lemma_tri_mono(0, i);
    lemma_tri_next(i);
    lemma_tri_mono(i + 1, n);
}

/// The closed forms the engine computes the triangular size with.
pub proof fn lemma_tri_formula(n: int)
    requires
        0 <= n,
    ensures
        n % 2 == 0 ==> tri(n) == (n / 2) * (n + 1),
        n % 2 == 1 ==> tri(n) == n * ((n + 1) / 2),
        n >= 1 ==> tri(n) <= n * n,
        n >= 2 ==> n * n >= 2 * n,
{
    if n % 2 == 0 {
        let h = n / 2;
        assert(n * (n + 1) == 2 * (h * (n + 1))) by (nonlinear_arith)
            requires
                n == 2 * h,
        ;
        assert((2 * (h * (n + 1))) / 2 == h * (n + 1));
    } else {
        let h = (n + 1) / 2;
        assert(n * (n + 1) == 2 * (n * h)) by (nonlinear_arith)
            requires
                n + 1 == 2 * h,
        ;
        assert((2 * (n * h)) / 2 == n * h);
    }
    if n >= 1 {
        assert(n * (n + 1) <= 2 * (n * n)) by (nonlinear_arith)
            requires
                n >= 1,
        ;
        assert((2 * (n * n)) / 2 == n * n);
    }
    if n >= 2 {
        assert(n * n >= 2 * n) by (nonlinear_arith)
            requires
                n >= 2,
        ;
    }
}

/// A pair's initial label: how many edges connect its two nodes.
pub open spec fn init2_label(g: Graph, p: int) -> u64 {
    edges_between(g.spec_edges(), row_of(p), col_of(p)) as u64
}

/// The initial two-dimensional label buffer, one label per unordered pair.
pub open spec fn initial2_labels(g: Graph) -> Seq<u64> {
    Seq::new(tri(g.spec_n() as int) as nat, |p: int| init2_label(g, p))
}

/// The direction-free pair of leg labels contributed by the third node `k` to
/// the pair `(l, r)`: the labels of `{k, r}` and `{l, k}`, smaller first.
pub open spec fn triple_pair(labels: Seq<u64>, l: int, r: int, k: int) -> (u64, u64) {
    let a = labels[pair_index(k, r)];
    let b = labels[pair_index(l, k)];
    if a < b {
        (a, b)
    } else {
        (b, a)
    }
}

/// One leg pair per third node, in node order.
pub open spec fn pair_row(g: Graph, labels: Seq<u64>, l: int, r: int) -> Seq<(u64, u64)> {
    Seq::new(g.spec_n(), |k: int| triple_pair(labels, l, r, k))
}

/// A sequence of pairs flattened in order into a single word sequence.
pub open spec fn flatten_pairs(ps: Seq<(u64, u64)>) -> Seq<u64>
    decreases ps.len(),
{
    if ps.len() == 0 {
        Seq::empty()
    } else {
        flatten_pairs(ps.drop_last()).push(ps.last().0).push(ps.last().1)
    }
}

/// A pair's next label: the digest of its sorted, flattened leg pairs with its
/// own label appended last.
pub open spec fn next2_label(g: Graph, seed: u64, labels: Seq<u64>, l: int, r: int) -> u64 {
    xxh64(
        seed,
        flatten_pairs(sort_pairs(pair_row(g, labels, l, r))).push(labels[pair_index(l, r)]),
    )
}

/// One two-dimensional refinement round applied to a whole pair-label buffer.
pub open spec fn step2_labels(g: Graph, seed: u64, labels: Seq<u64>) -> Seq<u64> {
    Seq::new(labels.len(), |p: int| next2_label(g, seed, labels, row_of(p), col_of(p)))
}

/// The two-dimensional label buffer after `k` applied rounds.
pub open spec fn labels2_after(g: Graph, seed: u64, k: nat) -> Seq<u64>
    decreases k,
{
    if k == 0 {
        initial2_labels(g)
    } else {
        step2_labels(g, seed, labels2_after(g, seed, (k - 1) as nat))
    }
}

pub proof fn lemma_labels2_after_len(g: Graph, seed: u64, k: nat)
    ensures
        labels2_after(g, seed, k).len() == tri(g.spec_n() as int),
    decreases k,
{
    lemma_tri_mono(0, g.spec_n() as int);
    if k > 0 {
        lemma_labels2_after_len(g, seed, (k - 1) as nat);
    }
}

/// Whether two-dimensional refinement has stabilized after `k` applied rounds.
pub open spec fn stable2_at(g: Graph, seed: u64, k: nat) -> bool {
    consistent_relabel(labels2_after(g, seed, k), labels2_after(g, seed, (k + 1) as nat))
}

/// The two-dimensional invariant after `k` applied rounds.
pub open spec fn invariant2_after(g: Graph, seed: u64, k: nat) -> u64 {
    finalized(seed, labels2_after(g, seed, k))
}

} // verus!
